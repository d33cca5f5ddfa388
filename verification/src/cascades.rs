//! The optimizer: the memo, the group arena, plan interning, and the
//! top-level entry point.

use vstd::prelude::*;
use vstd::set_lib::{set_int_range, lemma_int_range, lemma_len_subset, lemma_map_size};
use vstd::relations::injective_on;
use crate::group::{Group, group_hash_of, cost_lt, seq_min_cost};
use crate::memo_map::{memo_entries, memo_new, memo_get, memo_insert};
use crate::mexpr::{MExpr, SelectivityTable, default_selectivities, ops_in_range};
use crate::plan::PlanNode;
use crate::rulematcher::RuleMatcher;

verus! {

/// Whether the interner handles every operator of the plan: projections,
/// filters, joins and table scans, nothing else.
pub open spec fn plan_supported(p: crate::plan::PlanV) -> bool
    decreases p,
{
    match p {
        crate::plan::PlanV::Projection { input, .. } => plan_supported(*input),
        crate::plan::PlanV::Filter { input, .. } => plan_supported(*input),
        crate::plan::PlanV::Join { left, right, .. } => plan_supported(*left) && plan_supported(
            *right,
        ),
        crate::plan::PlanV::TableScan { .. } => true,
        _ => false,
    }
}

/// Why an optimize call can fail outright.
#[derive(Debug, Clone, Copy, PartialEq, Eq, Structural)]
pub enum OptimizerError {
    UnsupportedOperator,
}

/// The largest number of distinct 64-bit fingerprints.
pub open spec fn fingerprint_space() -> int {
    0x1_0000_0000_0000_0000
}

/// A finite set of 64-bit keys holds at most as many elements as there are
/// 64-bit values.
pub proof fn lemma_u64_key_bound(s: Set<u64>)
    requires
        s.finite(),
    ensures
        s.len() <= fingerprint_space(),
{
    let f = |k: u64| k as int;
    let t = s.map(f);
    assert(injective_on(f, s));
    lemma_map_size(s, t, f);
    lemma_int_range(0, fingerprint_space());
    assert forall|x: int| t.contains(x) implies set_int_range(0, fingerprint_space()).contains(
        x,
    ) by {
        let k = choose|k: u64| s.contains(k) && f(k) == x;
    }
    lemma_len_subset(t, set_int_range(0, fingerprint_space()));
}

/// Every member expression of the group points only at groups in the arena.
pub open spec fn group_members_ok(groups: Seq<Group>, gid: int) -> bool {
    let g = groups[gid];
    &&& forall|k: int|
        0 <= k < g.unexplored_equivalent_logical_mexprs@.len() ==> ops_in_range(
            (#[trigger] g.unexplored_equivalent_logical_mexprs@[k]).operands@,
            groups.len(),
        )
    &&& forall|k: int|
        0 <= k < g.equivalent_logical_mexprs@.len() ==> ops_in_range(
            (#[trigger] g.equivalent_logical_mexprs@[k]).operands@,
            groups.len(),
        )
    &&& match g.cheapest_logical_expression {
        Some(e) => ops_in_range(e.operands@, groups.len()),
        None => true,
    }
    &&& match g.start_expression {
        Some(e) => ops_in_range(e.operands@, groups.len()),
        None => true,
    }
}

/// Every member expression of every group points only at groups in the
/// arena.
pub open spec fn groups_members_ok(groups: Seq<Group>) -> bool {
    forall|gid: int| 0 <= gid < groups.len() ==> #[trigger] group_members_ok(groups, gid)
}

/// A group whose members point inside a smaller arena still points inside a
/// larger one.
pub proof fn lemma_members_ok_monotone(oldgs: Seq<Group>, gs: Seq<Group>, g2: int)
    requires
        0 <= g2 < oldgs.len(),
        gs.len() >= oldgs.len(),
        g2 < gs.len(),
        gs[g2] == oldgs[g2],
        group_members_ok(oldgs, g2),
    ensures
        group_members_ok(gs, g2),
{
    let g = gs[g2];
    assert forall|k: int|
        0 <= k < g.unexplored_equivalent_logical_mexprs@.len() implies ops_in_range(
        (#[trigger] g.unexplored_equivalent_logical_mexprs@[k]).operands@,
        gs.len(),
    ) by {
        assert(ops_in_range(g.unexplored_equivalent_logical_mexprs@[k].operands@, oldgs.len()));
        lemma_ops_in_range_monotone(
            g.unexplored_equivalent_logical_mexprs@[k].operands@,
            oldgs.len(),
            gs.len(),
        );
    }
    assert forall|k: int|
        0 <= k < g.equivalent_logical_mexprs@.len() implies ops_in_range(
        (#[trigger] g.equivalent_logical_mexprs@[k]).operands@,
        gs.len(),
    ) by {
        assert(ops_in_range(g.equivalent_logical_mexprs@[k].operands@, oldgs.len()));
        lemma_ops_in_range_monotone(g.equivalent_logical_mexprs@[k].operands@, oldgs.len(), gs.len());
    }
    match g.cheapest_logical_expression {
        Some(e) => {
            lemma_ops_in_range_monotone(e.operands@, oldgs.len(), gs.len());
        },
        None => {},
    }
    match g.start_expression {
        Some(e) => {
            lemma_ops_in_range_monotone(e.operands@, oldgs.len(), gs.len());
        },
        None => {},
    }
}

/// Indices below a smaller bound sit below a larger one.
pub proof fn lemma_ops_in_range_monotone(ops: Seq<usize>, n1: nat, n2: nat)
    requires
        ops_in_range(ops, n1),
        n1 <= n2,
    ensures
        ops_in_range(ops, n2),
{
    assert forall|i: int| 0 <= i < ops.len() implies (#[trigger] ops[i] as nat) < n2 by {
        assert((ops[i] as nat) < n1);
    }
}

/// The memo index and the arena agree: every entry names a group in the
/// arena, and every group stands in the memo under its own fingerprint,
/// bound to itself.
pub open spec fn memo_wf(memo: Map<u64, usize>, groups: Seq<Group>) -> bool {
    &&& memo.dom().finite()
    &&& forall|h: u64| memo.dom().contains(h) ==> (#[trigger] memo[h] as int) < groups.len()
    &&& forall|gid: int|
        0 <= gid < groups.len() ==> memo.dom().contains(
            group_hash_of(#[trigger] groups[gid]),
        ) && memo[group_hash_of(groups[gid])] as int == gid
}

/// Every explored member's cost has been computed, and each of its operand
/// groups is itself explored.
pub open spec fn equiv_members_ok(groups: Seq<Group>) -> bool {
    forall|gid: int, k: int|
        0 <= gid < groups.len() && 0 <= k
            < groups[gid].equivalent_logical_mexprs@.len() ==> equiv_member_ok(
            groups,
            #[trigger] groups[gid].equivalent_logical_mexprs@[k],
        )
}

/// One explored member's obligations: a computed cost, and explored operand
/// groups inside the arena.
pub open spec fn equiv_member_ok(groups: Seq<Group>, m: MExpr) -> bool {
    &&& m.cost is Some
    &&& ops_in_range(m.operands@, groups.len())
    &&& forall|j: int|
        0 <= j < m.operands@.len() ==> groups[#[trigger] m.operands@[j] as int].explored
}

/// A chosen cheapest member never beats every explored member: its cost is
/// matched by one of them.
pub open spec fn cheapest_dominated(groups: Seq<Group>) -> bool {
    forall|gid: int|
        0 <= gid < groups.len() ==> match (#[trigger] groups[gid]).cheapest_logical_expression {
            Some(p) => exists|i: int|
                0 <= i < groups[gid].equivalent_logical_mexprs@.len() && !cost_lt(
                    p.cost,
                    groups[gid].equivalent_logical_mexprs@[i].cost,
                ),
            None => true,
        }
}

/// A fully drained group: nothing left to explore, and the cached minimum is
/// the least cost among its explored members.
pub open spec fn group_done(groups: Seq<Group>, gid: int) -> bool {
    &&& groups[gid].unexplored_equivalent_logical_mexprs@.len() == 0
    &&& groups[gid].min_cost == seq_min_cost(groups[gid].equivalent_logical_mexprs@)
}

/// Outside an exploration, every explored group is fully drained.
pub open spec fn explored_done(groups: Seq<Group>) -> bool {
    forall|gid: int|
        0 <= gid < groups.len() && (#[trigger] groups[gid]).explored ==> group_done(groups, gid)
}

/// The optimizer's global well-formedness, holding between public calls.
pub open spec fn optimizer_wf(memo: Map<u64, usize>, groups: Seq<Group>) -> bool {
    &&& memo_wf(memo, groups)
    &&& groups_members_ok(groups)
    &&& equiv_members_ok(groups)
    &&& cheapest_dominated(groups)
    &&& explored_done(groups)
}

/// Computes the fingerprint key and either returns the group already bound
/// to it or interns a fresh group seeded with the expression.
pub(crate) fn gen_or_get_from_memo(
    memo: &mut ahash::AHashMap<u64, usize>,
    groups: &mut Vec<Group>,
    plan_mexpr: MExpr,
) -> (gid: usize)
    requires
        memo_wf(memo_entries(*old(memo)), old(groups)@),
        ops_in_range(plan_mexpr.operands@, old(groups)@.len()),
    ensures
        memo_wf(memo_entries(*final(memo)), final(groups)@),
        (gid as int) < final(groups)@.len(),
        old(groups)@.len() <= final(groups)@.len(),
        forall|i: int| 0 <= i < old(groups)@.len() ==> final(groups)@[i] == old(groups)@[i],
        memo_entries(*final(memo)).dom().contains(plan_mexpr.hash) && memo_entries(
            *final(memo),
        )[plan_mexpr.hash] == gid,
        if memo_entries(*old(memo)).dom().contains(plan_mexpr.hash) {
            final(groups)@ == old(groups)@ && memo_entries(*final(memo)) == memo_entries(
                *old(memo),
            ) && memo_entries(*old(memo))[plan_mexpr.hash] == gid
        } else {
            &&& gid as int == old(groups)@.len()
            &&& final(groups)@.len() == old(groups)@.len() + 1
            &&& memo_entries(*final(memo)) == memo_entries(*old(memo)).insert(
                plan_mexpr.hash,
                gid,
            )
            &&& (final(groups)@[gid as int].unexplored_equivalent_logical_mexprs@ == seq![
                plan_mexpr,
            ])
            &&& !final(groups)@[gid as int].explored
            &&& final(groups)@[gid as int].equivalent_logical_mexprs@ == Seq::<MExpr>::empty()
            &&& final(groups)@[gid as int].cheapest_logical_expression is None
            &&& group_hash_of(final(groups)@[gid as int]) == plan_mexpr.hash
            &&& (final(groups)@[gid as int].start_expression matches Some(s) && s.operands@
                == plan_mexpr.operands@)
            &&& final(groups)@[gid as int].source_node is None
            &&& !final(groups)@[gid as int].explored
        },
{
    let hash = plan_mexpr.hash();
    match memo_get(memo, hash) {
        Some(gid) => gid,
        None => {
            let new_group = Group::from_mexpr(plan_mexpr);
            let gid = groups.len();
            groups.push(new_group);
            memo_insert(memo, hash, gid);
            proof {
                let m2 = memo_entries(*memo);
                let gs2 = groups@;
                assert forall|gid2: int| 0 <= gid2 < gs2.len() implies m2.dom().contains(
                    group_hash_of(#[trigger] gs2[gid2]),
                ) && m2[group_hash_of(gs2[gid2])] as int == gid2 by {
                    if gid2 < gs2.len() - 1 {
                        assert(gs2[gid2] == old(groups)@[gid2]);
                        assert(group_hash_of(gs2[gid2]) != hash);
                    }
                }
            }
            gid
        },
    }
}

/// The Cascades optimizer: a fingerprint-keyed memo over an arena of
/// equivalence groups, explored by a rule matcher.
#[derive(Debug)]
pub struct Cascades {
    pub memo: ahash::AHashMap<u64, usize>,
    pub groups: Vec<Group>,
    pub rulematcher: RuleMatcher,
    pub selectivities: SelectivityTable,
}

impl Cascades {
    /// The optimizer's invariant between public calls.
    pub open spec fn wf(self) -> bool {
        &&& optimizer_wf(memo_entries(self.memo), self.groups@)
        &&& self.selectivities.wf()
    }

    /// A fresh optimizer with an empty memo and the default selectivities.
    pub fn new() -> (r: Cascades)
        ensures
            r.wf(),
            r.groups@.len() == 0,
    {
        let r = Cascades {
            memo: memo_new(),
            groups: Vec::new(),
            rulematcher: RuleMatcher::new(),
            selectivities: default_selectivities(),
        };
        r
    }

    /// A fresh optimizer; the same as `new`.
    pub fn default() -> (r: Cascades)
        ensures
            r.wf(),
            r.groups@.len() == 0,
    {
        Cascades::new()
    }

    /// Explores the group to a fixed point: after the call the root group and
    /// every group reachable from it through explored members is explored and
    /// drained, with its cached minimum cost the least among its members.
    pub fn optimize(&mut self, root_group: usize)
        requires
            old(self).wf(),
            (root_group as int) < old(self).groups@.len(),
        ensures
            final(self).wf(),
            final(self).groups@[root_group as int].explored,
            old(self).groups@.len() <= final(self).groups@.len(),
            old(self).groups@[root_group as int].explored ==> final(self).groups@ == old(
                self,
            ).groups@ && memo_entries(final(self).memo) == memo_entries(old(self).memo),
            forall|gid: int|
                0 <= gid < old(self).groups@.len() ==> crate::rulematcher::eq_prefix(
                    (#[trigger] old(self).groups@[gid]).equivalent_logical_mexprs@,
                    final(self).groups@[gid].equivalent_logical_mexprs@,
                ),
            forall|gid: int, k: int|
                #![trigger old(self).groups@[gid].unexplored_equivalent_logical_mexprs@[k]]
                0 <= gid < old(self).groups@.len() && 0 <= k < old(
                    self,
                ).groups@[gid].unexplored_equivalent_logical_mexprs@.len()
                    ==> crate::rulematcher::core_in_group(
                    old(self).groups@[gid].unexplored_equivalent_logical_mexprs@[k],
                    final(self).groups@,
                    Seq::empty(),
                    gid,
                ),
    {
        self.rulematcher.explore(
            root_group,
            &mut self.memo,
            &mut self.groups,
            &self.selectivities,
        );
    }

    /// Interns the expression, reusing the group its fingerprint is already
    /// bound to if any.
    fn gen_or_get_from_memo(&mut self, plan_mexpr: MExpr) -> (gid: usize)
        requires
            old(self).wf(),
            ops_in_range(plan_mexpr.operands@, old(self).groups@.len()),
        ensures
            final(self).wf(),
            (gid as int) < final(self).groups@.len(),
            old(self).groups@.len() <= final(self).groups@.len(),
            forall|i: int|
                0 <= i < old(self).groups@.len() ==> final(self).groups@[i] == old(
                    self,
                ).groups@[i],
    {
        let ghost oldgs = self.groups@;
        let gid = gen_or_get_from_memo(&mut self.memo, &mut self.groups, plan_mexpr);
        proof {
            let gs = self.groups@;
            if gs.len() > oldgs.len() {
                assert forall|g2: int| 0 <= g2 < gs.len() implies #[trigger] group_members_ok(
                    gs,
                    g2,
                ) by {
                    if g2 < oldgs.len() {
                        assert(group_members_ok(oldgs, g2));
                        assert(gs[g2] == oldgs[g2]);
                        lemma_members_ok_monotone(oldgs, gs, g2);
                    } else {
                        assert(gs[g2].unexplored_equivalent_logical_mexprs@ == seq![plan_mexpr]);
                        lemma_ops_in_range_monotone(plan_mexpr.operands@, oldgs.len(), gs.len());
                        assert(gs[g2].unexplored_equivalent_logical_mexprs@[0] == plan_mexpr);
                        match gs[g2].start_expression {
                            Some(st) => {
                                assert(st.operands@ == plan_mexpr.operands@);
                            },
                            None => {},
                        }
                    }
                }
                assert forall|g2: int, k: int|
                    0 <= g2 < gs.len() && 0 <= k
                        < gs[g2].equivalent_logical_mexprs@.len() implies equiv_member_ok(
                    gs,
                    #[trigger] gs[g2].equivalent_logical_mexprs@[k],
                ) by {
                    assert(gs[g2] == oldgs[g2]);
                    assert(equiv_member_ok(oldgs, gs[g2].equivalent_logical_mexprs@[k]));
                }
                assert(cheapest_dominated(gs)) by {
                    assert forall|g2: int|
                        0 <= g2 < gs.len() implies match (
                    #[trigger] gs[g2]).cheapest_logical_expression {
                        Some(p) => exists|i: int|
                            0 <= i < gs[g2].equivalent_logical_mexprs@.len() && !cost_lt(
                                p.cost,
                                gs[g2].equivalent_logical_mexprs@[i].cost,
                            ),
                        None => true,
                    } by {
                        if g2 < oldgs.len() {
                            assert(gs[g2] == oldgs[g2]);
                        }
                    }
                }
                assert(explored_done(gs)) by {
                    assert forall|g2: int|
                        0 <= g2 < gs.len() && (#[trigger] gs[g2]).explored implies group_done(
                        gs,
                        g2,
                    ) by {
                        assert(gs[g2] == oldgs[g2]);
                        assert(group_done(oldgs, g2));
                    }
                }
            } else {
                assert(gs =~= oldgs);
            }
        }
        gid
    }

    /// Interns a logical plan bottom-up: each child subtree becomes a group,
    /// then the node itself, reusing groups whose fingerprints already stand
    /// in the memo. A plan with an operator the interner does not handle is
    /// rejected whole.
    pub fn gen_group_logical_plan(&mut self, plan: &PlanNode) -> (r: Result<usize, OptimizerError>)
        requires
            old(self).wf(),
        ensures
            final(self).wf(),
            old(self).groups@.len() <= final(self).groups@.len(),
            forall|i: int|
                0 <= i < old(self).groups@.len() ==> final(self).groups@[i] == old(
                    self,
                ).groups@[i],
            r is Ok <==> plan_supported(plan@),
            r matches Ok(gid) ==> (gid as int) < final(self).groups@.len(),
            r is Err ==> r == Result::<usize, OptimizerError>::Err(
                OptimizerError::UnsupportedOperator,
            ),
        decreases *plan,
    {
        let mut operands: Vec<usize> = Vec::new();
        match plan {
            PlanNode::Projection { input, .. } => {
                let child = self.gen_group_logical_plan(input);
                match child {
                    Ok(gid) => {
                        operands.push(gid);
                    },
                    Err(e) => {
                        return Err(e);
                    },
                }
            },
            PlanNode::Filter { input, .. } => {
                let child = self.gen_group_logical_plan(input);
                match child {
                    Ok(gid) => {
                        operands.push(gid);
                    },
                    Err(e) => {
                        return Err(e);
                    },
                }
            },
            PlanNode::Join { left, right, .. } => {
                let lchild = self.gen_group_logical_plan(left);
                match lchild {
                    Ok(gid) => {
                        operands.push(gid);
                    },
                    Err(e) => {
                        return Err(e);
                    },
                }
                let rchild = self.gen_group_logical_plan(right);
                match rchild {
                    Ok(gid) => {
                        operands.push(gid);
                    },
                    Err(e) => {
                        return Err(e);
                    },
                }
            },
            PlanNode::TableScan { .. } => {},
            _ => {
                return Err(OptimizerError::UnsupportedOperator);
            },
        }
        let node = plan.clone_plan();
        let mexpr = MExpr::build_with_node(node, operands, &self.groups);
        let gid = self.gen_or_get_from_memo(mexpr);
        Ok(gid)
    }

    /// One index per group in the arena, in creation order.
    pub fn get_unique_groups_in_memo(&self) -> (r: Vec<usize>)
        ensures
            r@.len() == self.groups@.len(),
            forall|i: int| 0 <= i < r@.len() ==> #[trigger] r@[i] as int == i,
    {
        let mut r: Vec<usize> = Vec::new();
        let mut i: usize = 0;
        while i < self.groups.len()
            invariant
                i <= self.groups@.len(),
                r@.len() == i,
                forall|j: int| 0 <= j < i ==> #[trigger] r@[j] as int == j,
            decreases self.groups@.len() - i,
        {
            r.push(i);
            i = i + 1;
        }
        r
    }

    /// The memo index itself.
    pub fn get_memo(&self) -> (r: &ahash::AHashMap<u64, usize>)
        ensures
            r == &self.memo,
    {
        &self.memo
    }
}

/// Every group stands in the memo under its own fingerprint, bound to
/// itself.
pub proof fn lemma_memo_canonical(c: Cascades, gid: int)
    requires
        c.wf(),
        0 <= gid < c.groups@.len(),
    ensures
        memo_entries(c.memo).dom().contains(group_hash_of(c.groups@[gid])),
        memo_entries(c.memo)[group_hash_of(c.groups@[gid])] as int == gid,
{
}

/// Whether `to` can be reached from `from` in exactly `steps` hops, each hop
/// passing from a group to an operand group of one of its explored members.
pub open spec fn reaches(groups: Seq<Group>, from: int, to: int, steps: nat) -> bool
    decreases steps,
{
    if steps == 0 {
        from == to
    } else {
        exists|k: int, j: int|
            #![trigger groups[from].equivalent_logical_mexprs@[k].operands@[j]]
            0 <= k < groups[from].equivalent_logical_mexprs@.len() && 0 <= j
                < groups[from].equivalent_logical_mexprs@[k].operands@.len() && reaches(
                groups,
                groups[from].equivalent_logical_mexprs@[k].operands@[j] as int,
                to,
                (steps - 1) as nat,
            )
    }
}

/// After exploration, every group reachable from an explored group is itself
/// explored, its queue is drained, its cached minimum cost is the least cost
/// among its explored members, and each of those members has a computed cost
/// and explored operand groups.
pub proof fn lemma_reachable_explored(groups: Seq<Group>, from: int, to: int, steps: nat)
    requires
        equiv_members_ok(groups),
        explored_done(groups),
        0 <= from < groups.len(),
        groups[from].explored,
        reaches(groups, from, to, steps),
    ensures
        0 <= to < groups.len(),
        groups[to].explored,
        group_done(groups, to),
        forall|k: int|
            0 <= k < groups[to].equivalent_logical_mexprs@.len() ==> equiv_member_ok(
                groups,
                #[trigger] groups[to].equivalent_logical_mexprs@[k],
            ),
    decreases steps,
{
    if steps == 0 {
    } else {
        let (k, j) = choose|k: int, j: int|
            #![trigger groups[from].equivalent_logical_mexprs@[k].operands@[j]]
            0 <= k < groups[from].equivalent_logical_mexprs@.len() && 0 <= j
                < groups[from].equivalent_logical_mexprs@[k].operands@.len() && reaches(
                groups,
                groups[from].equivalent_logical_mexprs@[k].operands@[j] as int,
                to,
                (steps - 1) as nat,
            );
        let m = groups[from].equivalent_logical_mexprs@[k];
        assert(equiv_member_ok(groups, m));
        let mid = m.operands@[j] as int;
        assert(groups[mid].explored);
        lemma_reachable_explored(groups, mid, to, (steps - 1) as nat);
    }
}

} // verus!
