//! The exploration driver and the join transformation rules.

use vstd::prelude::*;
use crate::cascades::{
    gen_or_get_from_memo, memo_wf, groups_members_ok, group_members_ok, equiv_members_ok,
    equiv_member_ok, cheapest_dominated, group_done, optimizer_wf, fingerprint_space,
    lemma_u64_key_bound,
};
use crate::group::{
    Group, group_hash_of, cost_lt, seq_min_cost, min_from, opt_cost, lemma_min_from_cost,
    lemma_min_from_cases,
};
use crate::memo_map::{memo_entries, memo_get, memo_insert};
use crate::cascades::{lemma_members_ok_monotone, lemma_ops_in_range_monotone};
use crate::mexpr::{
    MExpr, SelectivityTable, ops_in_range, update_ok, same_mexpr, opt_same_mexpr, fingerprint_of,
    group_hashes,
};
use crate::plan::{PlanNode, JoinType, JoinConstraint, Schema, build_join_schema};
use crate::expr::{ScalarExpr, ExprV, split_conjunction, conjunction};
use crate::expression_utils::infer_equalities;

verus! {


/// Whether two multi-expressions carry the same fingerprint, payload and
/// operands; the cost and row count may differ.
pub open spec fn mexpr_core_eq(a: MExpr, b: MExpr) -> bool {
    a.hash == b.hash && a.op@ == b.op@ && a.operands@ == b.operands@
}

/// Whether the first list is an exact prefix of the second.
pub open spec fn eq_prefix(a: Seq<MExpr>, b: Seq<MExpr>) -> bool {
    a.len() <= b.len() && forall|t: int| 0 <= t < a.len() ==> a[t] == #[trigger] b[t]
}

/// Whether an expression still stands, by content, in the group's queue, in
/// its explored members, or in a pending processing task for the group.
pub open spec fn core_in_group(m: MExpr, groups: Seq<Group>, ts: Seq<Task>, gid: int) -> bool {
    ||| exists|k2: int|
        0 <= k2 < groups[gid].unexplored_equivalent_logical_mexprs@.len() && mexpr_core_eq(
            #[trigger] groups[gid].unexplored_equivalent_logical_mexprs@[k2],
            m,
        )
    ||| exists|k2: int|
        0 <= k2 < groups[gid].equivalent_logical_mexprs@.len() && mexpr_core_eq(
            #[trigger] groups[gid].equivalent_logical_mexprs@[k2],
            m,
        )
    ||| exists|k2: int|
        0 <= k2 < ts.len() && (match #[trigger] ts[k2] {
            Task::ProcessExpr(g2, mf, _) => g2 as int == gid && mexpr_core_eq(mf, m),
            _ => false,
        })
}


/// An expression's standing survives a step that reshapes the stack without
/// touching the group's queue or explored members, as long as the lost top
/// task was not a processing task.
proof fn carry_core_stable(
    m: MExpr,
    gs0: Seq<Group>,
    gs1: Seq<Group>,
    ts0: Seq<Task>,
    ts1: Seq<Task>,
    gid: int,
)
    requires
        core_in_group(m, gs0, ts0, gid),
        0 <= gid < gs0.len(),
        gid < gs1.len(),
        gs1[gid].unexplored_equivalent_logical_mexprs@
            == gs0[gid].unexplored_equivalent_logical_mexprs@,
        gs1[gid].equivalent_logical_mexprs@ == gs0[gid].equivalent_logical_mexprs@,
        ts0.len() > 0,
        match ts0.last() {
            Task::ProcessExpr(g2, _, _) => g2 as int != gid,
            _ => true,
        },
        forall|k2: int| 0 <= k2 < ts0.len() - 1 && k2 < ts1.len() ==> ts1[k2] == #[trigger] ts0[k2],
        ts1.len() >= ts0.len() - 1,
    ensures
        core_in_group(m, gs1, ts1, gid),
{
    if exists|k2: int|
        0 <= k2 < gs0[gid].unexplored_equivalent_logical_mexprs@.len() && mexpr_core_eq(
            #[trigger] gs0[gid].unexplored_equivalent_logical_mexprs@[k2],
            m,
        ) {
        let k2 = choose|k2: int|
            0 <= k2 < gs0[gid].unexplored_equivalent_logical_mexprs@.len() && mexpr_core_eq(
                #[trigger] gs0[gid].unexplored_equivalent_logical_mexprs@[k2],
                m,
            );
        assert(mexpr_core_eq(gs1[gid].unexplored_equivalent_logical_mexprs@[k2], m));
    } else if exists|k2: int|
        0 <= k2 < gs0[gid].equivalent_logical_mexprs@.len() && mexpr_core_eq(
            #[trigger] gs0[gid].equivalent_logical_mexprs@[k2],
            m,
        ) {
        let k2 = choose|k2: int|
            0 <= k2 < gs0[gid].equivalent_logical_mexprs@.len() && mexpr_core_eq(
                #[trigger] gs0[gid].equivalent_logical_mexprs@[k2],
                m,
            );
        assert(mexpr_core_eq(gs1[gid].equivalent_logical_mexprs@[k2], m));
    } else {
        let k2 = choose|k2: int|
            0 <= k2 < ts0.len() && (match #[trigger] ts0[k2] {
                Task::ProcessExpr(g2, mf, _) => g2 as int == gid && mexpr_core_eq(mf, m),
                _ => false,
            });
        assert(k2 < ts0.len() - 1);
        assert(ts1[k2] == ts0[k2]);
    }
}

/// One pending step of the iterative exploration: enter a group, continue
/// draining a group's queue, or process one popped expression, children
/// first.
pub enum Task {
    ExploreGroup(usize),
    GroupLoop(usize),
    ProcessExpr(usize, MExpr, usize),
}

/// The termination weight of one pending task.
pub open spec fn task_weight(t: Task) -> nat {
    match t {
        Task::ExploreGroup(_) => 3,
        Task::GroupLoop(_) => 2,
        Task::ProcessExpr(_, m, i) => if i <= m.operands@.len() {
            (4 * (m.operands@.len() - i) + 3) as nat
        } else {
            3
        },
    }
}

/// The termination weight of the whole stack.
pub open spec fn stack_weight(ts: Seq<Task>) -> nat
    decreases ts.len(),
{
    if ts.len() == 0 {
        0
    } else {
        stack_weight(ts.drop_last()) + task_weight(ts.last())
    }
}

/// How much work sits queued across every group.
pub open spec fn total_unexplored(groups: Seq<Group>) -> nat
    decreases groups.len(),
{
    if groups.len() == 0 {
        0
    } else {
        total_unexplored(groups.drop_last())
            + groups.last().unexplored_equivalent_logical_mexprs@.len()
    }
}

/// Replacing one group changes the queued total by the difference of its
/// queue lengths.
pub proof fn lemma_total_update(groups: Seq<Group>, i: int, g: Group)
    requires
        0 <= i < groups.len(),
    ensures
        total_unexplored(groups.update(i, g))
            + groups[i].unexplored_equivalent_logical_mexprs@.len() == total_unexplored(groups)
            + g.unexplored_equivalent_logical_mexprs@.len(),
    decreases groups.len(),
{
    let upd = groups.update(i, g);
    if i == groups.len() - 1 {
        assert(upd.drop_last() =~= groups.drop_last());
    } else {
        assert(upd.drop_last() =~= groups.drop_last().update(i, g));
        assert(upd.last() == groups.last());
        lemma_total_update(groups.drop_last(), i, g);
    }
}

/// Appending a group adds its queue length to the total.
pub proof fn lemma_total_push(groups: Seq<Group>, g: Group)
    ensures
        total_unexplored(groups.push(g)) == total_unexplored(groups)
            + g.unexplored_equivalent_logical_mexprs@.len(),
{
    assert(groups.push(g).drop_last() =~= groups);
}

/// Whether the task names the group, in any role.
pub open spec fn names_gid(t: Task, gid: int) -> bool {
    match t {
        Task::ExploreGroup(g) => g as int == gid,
        Task::GroupLoop(g) => g as int == gid,
        Task::ProcessExpr(g, _, _) => g as int == gid,
    }
}

/// Whether the task will come back to drain the group.
pub open spec fn drains(t: Task, gid: int) -> bool {
    match t {
        Task::GroupLoop(g) => g as int == gid,
        Task::ProcessExpr(g, _, _) => g as int == gid,
        Task::ExploreGroup(_) => false,
    }
}

/// Whether some pending task will come back to drain the group.
pub open spec fn pending(ts: Seq<Task>, gid: int) -> bool {
    exists|k: int| 0 <= k < ts.len() && drains(#[trigger] ts[k], gid)
}

/// One pending task's basic obligations against the arena.
pub open spec fn task_basic_ok(t: Task, groups: Seq<Group>) -> bool {
    match t {
        Task::ExploreGroup(g) => (g as int) < groups.len(),
        Task::GroupLoop(g) => (g as int) < groups.len(),
        Task::ProcessExpr(g, m, i) => (g as int) < groups.len() && ops_in_range(
            m.operands@,
            groups.len(),
        ) && i <= m.operands@.len(),
    }
}

/// A processing task's walked children are explored, or a task higher on the
/// stack still names them.
pub open spec fn frame_children_ok(ts: Seq<Task>, k: int, groups: Seq<Group>) -> bool {
    match ts[k] {
        Task::ProcessExpr(_, m, i) => forall|j: int|
            0 <= j < i && (#[trigger] m.operands@[j] as int) < groups.len() ==> groups[
                m.operands@[j] as int
            ].explored || exists|k2: int| k < k2 < ts.len() && names_gid(#[trigger] ts[k2], m.operands@[j] as int),
        _ => true,
    }
}

/// The driver's working invariant: the global shape holds, every pending
/// task is sound, and an explored group is either drained with its minimum
/// cached or has a pending task that will come back to drain it.
pub open spec fn explore_inv(memo: Map<u64, usize>, groups: Seq<Group>, ts: Seq<Task>) -> bool {
    &&& memo_wf(memo, groups)
    &&& groups_members_ok(groups)
    &&& equiv_members_ok(groups)
    &&& cheapest_dominated(groups)
    &&& memo.dom().len() <= fingerprint_space()
    &&& forall|k: int| 0 <= k < ts.len() ==> task_basic_ok(#[trigger] ts[k], groups)
    &&& forall|k: int| 0 <= k < ts.len() ==> frame_children_ok(ts, k, groups)
    &&& forall|gid: int|
        0 <= gid < groups.len() && (#[trigger] groups[gid]).explored ==> group_done(groups, gid)
            || pending(ts, gid)
}


/// The two operand indices of a binary expression, swapped.
pub open spec fn swap_ops(ops: Seq<usize>) -> Seq<usize> {
    seq![ops[1], ops[0]]
}

/// Swapping a join's two operands twice restores the operand order, and with
/// it the fingerprint: commutativity applied twice is the identity.
pub proof fn lemma_commutativity_involutive(groups: Seq<Group>, ops: Seq<usize>, payload: crate::plan::PlanV)
    requires
        ops.len() == 2,
    ensures
        swap_ops(swap_ops(ops)) == ops,
        fingerprint_of(group_hashes(groups, swap_ops(swap_ops(ops))), payload) == fingerprint_of(
            group_hashes(groups, ops),
            payload,
        ),
{
    assert(swap_ops(swap_ops(ops)) =~= ops);
}

/// Applies join commutativity: an inner join's two operands swap under the
/// same payload, giving a distinct fingerprint in the same class.
fn apply_join_commutativity(mexpr: &MExpr, groups: &Vec<Group>) -> (r: Vec<MExpr>)
    requires
        ops_in_range(mexpr.operands@, groups@.len()),
    ensures
        forall|k: int|
            0 <= k < r@.len() ==> ops_in_range((#[trigger] r@[k]).operands@, groups@.len()),
        if mexpr.op@ matches crate::plan::PlanV::Join { join_type: JoinType::Inner, .. }
            && mexpr.operands@.len() == 2 {
            r@.len() == 1 && r@[0].operands@ == swap_ops(mexpr.operands@) && r@[0].op@
                == mexpr.op@ && r@[0].hash == fingerprint_of(
                group_hashes(groups@, swap_ops(mexpr.operands@)),
                mexpr.op@,
            )
        } else {
            r@.len() == 0
        },
{
    let is_inner_join = match &mexpr.op {
        PlanNode::Join { join_type: JoinType::Inner, .. } => true,
        _ => false,
    };
    let mut out: Vec<MExpr> = Vec::new();
    if is_inner_join && mexpr.operands.len() == 2 {
        let left = mexpr.operands[0];
        let right = mexpr.operands[1];
        let mut ops: Vec<usize> = Vec::new();
        ops.push(right);
        ops.push(left);
        proof {
            assert(ops@ =~= swap_ops(mexpr.operands@));
        }
        let node = mexpr.op.clone_plan();
        let m = MExpr::build_with_node(node, ops, groups);
        out.push(m);
    }
    out
}

/// The column image an expression stands for; meaningful only for columns.
pub open spec fn column_of(e: crate::expr::ExprV) -> crate::expr::ColumnV {
    match e {
        crate::expr::ExprV::Column(c) => c,
        _ => arbitrary(),
    }
}

/// Whether the pair, in either orientation, already stands among the keys.
pub open spec fn key_seen(keys: Seq<(ExprV, ExprV)>, l: ExprV, r: ExprV) -> bool {
    exists|t: int| 0 <= t < keys.len() && ((#[trigger] keys[t]) == (l, r) || keys[t] == (r, l))
}

/// How one conjunct is classified: a two-column equality with one side
/// resolvable against each schema becomes a key pair, oriented left first
/// and trying the written orientation before the flipped one; one whose pair
/// already stands among the keys up to a flip is dropped; anything else
/// joins the residual filters.
pub open spec fn split_step(
    ls: Seq<crate::expr::ColumnV>,
    rs: Seq<crate::expr::ColumnV>,
    keys: Seq<(ExprV, ExprV)>,
    filters: Seq<ExprV>,
    e: ExprV,
) -> (Seq<(ExprV, ExprV)>, Seq<ExprV>) {
    match e {
        ExprV::Eq(l, r) => match (*l, *r) {
            (ExprV::Column(cl), ExprV::Column(cr)) => {
                if crate::plan::schema_resolves(ls, cl) && crate::plan::schema_resolves(rs, cr) {
                    if key_seen(keys, ExprV::Column(cl), ExprV::Column(cr)) {
                        (keys, filters)
                    } else {
                        (keys.push((ExprV::Column(cl), ExprV::Column(cr))), filters)
                    }
                } else if crate::plan::schema_resolves(ls, cr) && crate::plan::schema_resolves(
                    rs,
                    cl,
                ) {
                    if key_seen(keys, ExprV::Column(cr), ExprV::Column(cl)) {
                        (keys, filters)
                    } else {
                        (keys.push((ExprV::Column(cr), ExprV::Column(cl))), filters)
                    }
                } else {
                    (keys, filters.push(e))
                }
            },
            _ => (keys, filters.push(e)),
        },
        _ => (keys, filters.push(e)),
    }
}

/// The classification folded over a conjunct list, left to right.
pub open spec fn split_fold(
    ls: Seq<crate::expr::ColumnV>,
    rs: Seq<crate::expr::ColumnV>,
    list: Seq<ExprV>,
) -> (Seq<(ExprV, ExprV)>, Seq<ExprV>)
    decreases list.len(),
{
    if list.len() == 0 {
        (Seq::empty(), Seq::empty())
    } else {
        let prev = split_fold(ls, rs, list.drop_last());
        split_step(ls, rs, prev.0, prev.1, list.last())
    }
}

/// What predicate splitting returns: for some inferred list meeting the
/// inference contract, the keys and residual filters are exactly the
/// classification fold over the original conjuncts followed by the inferred
/// ones, the residual being the leftover conjuncts re-joined.
pub open spec fn split_post(
    ls: Seq<crate::expr::ColumnV>,
    rs: Seq<crate::expr::ColumnV>,
    conjs: Seq<ExprV>,
    keyviews: Seq<(ExprV, ExprV)>,
    residual: Option<ExprV>,
) -> bool {
    exists|inf: Seq<ExprV>|
        {
            &&& #[trigger] crate::expression_utils::infer_post(conjs, inf)
            &&& keyviews == split_fold(ls, rs, conjs + inf).0
            &&& residual == crate::expr::conjunction_view(split_fold(ls, rs, conjs + inf).1)
        }
}

/// Splits a boolean predicate into equi-join key pairs resolvable one side
/// each against the two schemas, and the remaining conjuncts re-joined as a
/// residual filter. The conjunct list is first closed under transitive
/// equality inference, and a pair already present up to a flip is not added
/// twice.
#[verifier::rlimit(50)]
fn split_eq_and_noneq_join_predicate(
    filter: &ScalarExpr,
    left_schema: &Schema,
    right_schema: &Schema,
) -> (r: (Vec<(ScalarExpr, ScalarExpr)>, Option<ScalarExpr>))
    ensures
        split_post(
            left_schema@,
            right_schema@,
            crate::expr::split_conj_view(filter@),
            crate::expression_utils::view_pairs(r.0@),
            r.1.deep_view(),
        ),
        forall|k: int|
            0 <= k < r.0@.len() ==> crate::plan::schema_resolves(
                left_schema@,
                column_of((#[trigger] r.0@[k]).0@),
            ) && crate::plan::schema_resolves(right_schema@, column_of(r.0@[k].1@)) && r.0@[k].0@
                is Column && r.0@[k].1@ is Column,
{
    let ghost conjs = crate::expr::split_conj_view(filter@);
    let exprs = split_conjunction(filter);
    let inferred = infer_equalities(&exprs);
    let ghost inf = inferred.deep_view();
    let ghost combined = conjs + inf;
    let mut accum_join_keys: Vec<(ScalarExpr, ScalarExpr)> = Vec::new();
    let mut accum_filters: Vec<ScalarExpr> = Vec::new();
    let mut t: usize = 0;
    proof {
        assert(combined.take(0) =~= Seq::<ExprV>::empty());
        assert(crate::expression_utils::view_pairs(accum_join_keys@) =~= Seq::<(
            ExprV,
            ExprV,
        )>::empty());
        assert(accum_filters.deep_view() =~= Seq::<ExprV>::empty());
    }
    while t < exprs.len()
        invariant
            exprs.deep_view() == conjs,
            inferred.deep_view() == inf,
            combined == conjs + inf,
            t <= exprs@.len(),
            (
                crate::expression_utils::view_pairs(accum_join_keys@),
                accum_filters.deep_view(),
            ) == split_fold(left_schema@, right_schema@, combined.take(t as int)),
            forall|k: int|
                0 <= k < accum_join_keys@.len() ==> crate::plan::schema_resolves(
                    left_schema@,
                    column_of((#[trigger] accum_join_keys@[k]).0@),
                ) && crate::plan::schema_resolves(
                    right_schema@,
                    column_of(accum_join_keys@[k].1@),
                ) && accum_join_keys@[k].0@ is Column && accum_join_keys@[k].1@ is Column,
        decreases exprs@.len() - t,
    {
        proof {
            assert(combined.take(t as int + 1).drop_last() =~= combined.take(t as int));
            assert(combined.take(t as int + 1).last() == combined[t as int]);
            assert(combined[t as int] == conjs[t as int]);
            assert(exprs.deep_view()[t as int] == exprs@[t as int]@);
        }
        split_one_conjunct(
            &exprs[t],
            left_schema,
            right_schema,
            &mut accum_join_keys,
            &mut accum_filters,
        );
        t = t + 1;
    }
    let mut t2: usize = 0;
    while t2 < inferred.len()
        invariant
            exprs.deep_view() == conjs,
            inferred.deep_view() == inf,
            combined == conjs + inf,
            t2 <= inferred@.len(),
            (
                crate::expression_utils::view_pairs(accum_join_keys@),
                accum_filters.deep_view(),
            ) == split_fold(
                left_schema@,
                right_schema@,
                combined.take(conjs.len() + t2 as int),
            ),
            forall|k: int|
                0 <= k < accum_join_keys@.len() ==> crate::plan::schema_resolves(
                    left_schema@,
                    column_of((#[trigger] accum_join_keys@[k]).0@),
                ) && crate::plan::schema_resolves(
                    right_schema@,
                    column_of(accum_join_keys@[k].1@),
                ) && accum_join_keys@[k].0@ is Column && accum_join_keys@[k].1@ is Column,
        decreases inferred@.len() - t2,
    {
        proof {
            let n = conjs.len() + t2 as int;
            assert(combined.take(n + 1).drop_last() =~= combined.take(n));
            assert(combined.take(n + 1).last() == combined[n]);
            assert(combined[n] == inf[t2 as int]);
            assert(inferred.deep_view()[t2 as int] == inferred@[t2 as int]@);
        }
        split_one_conjunct(
            &inferred[t2],
            left_schema,
            right_schema,
            &mut accum_join_keys,
            &mut accum_filters,
        );
        t2 = t2 + 1;
    }
    let residual = conjunction(&accum_filters);
    proof {
        assert(combined.take(combined.len() as int) =~= combined);
        assert(crate::expression_utils::infer_post(conjs, inf));
        assert(split_post(
            left_schema@,
            right_schema@,
            conjs,
            crate::expression_utils::view_pairs(accum_join_keys@),
            residual.deep_view(),
        ));
    }
    (accum_join_keys, residual)
}

/// Whether the oriented pair already stands among the keys, up to a flip.
fn key_is_seen(accum_join_keys: &Vec<(ScalarExpr, ScalarExpr)>, a: &ScalarExpr, b: &ScalarExpr) -> (r:
    bool)
    ensures
        r == key_seen(crate::expression_utils::view_pairs(accum_join_keys@), a@, b@),
{
    let ghost keys = crate::expression_utils::view_pairs(accum_join_keys@);
    let mut seen = false;
    let mut k: usize = 0;
    proof {
        assert(keys.take(0) =~= Seq::<(ExprV, ExprV)>::empty());
    }
    while k < accum_join_keys.len()
        invariant
            k <= accum_join_keys@.len(),
            keys == crate::expression_utils::view_pairs(accum_join_keys@),
            seen == key_seen(keys.take(k as int), a@, b@),
        decreases accum_join_keys@.len() - k,
    {
        let q = &accum_join_keys[k];
        proof {
            assert(keys[k as int] == (q.0@, q.1@));
            assert(keys.take(k as int + 1).drop_last() =~= keys.take(k as int));
            assert(keys.take(k as int + 1).last() == keys[k as int]);
        }
        if (q.0.eq_expr(a) && q.1.eq_expr(b)) || (q.0.eq_expr(b) && q.1.eq_expr(a)) {
            seen = true;
            proof {
                assert(key_seen(keys.take(k as int + 1), a@, b@));
            }
        } else {
            proof {
                if !seen {
                    assert forall|t: int|
                        0 <= t < k as int + 1 implies !((#[trigger] keys.take(k as int + 1)[t]) == (
                        a@,
                        b@,
                    ) || keys.take(k as int + 1)[t] == (b@, a@)) by {
                        if t < k as int {
                            assert(keys.take(k as int)[t] == keys.take(k as int + 1)[t]);
                        }
                    }
                }
            }
        }
        k = k + 1;
    }
    proof {
        assert(keys.take(keys.len() as int) =~= keys);
    }
    seen
}

/// Appends an oriented key pair.
fn push_key(accum_join_keys: &mut Vec<(ScalarExpr, ScalarExpr)>, a: &ScalarExpr, b: &ScalarExpr)
    ensures
        crate::expression_utils::view_pairs(final(accum_join_keys)@)
            == crate::expression_utils::view_pairs(old(accum_join_keys)@).push((a@, b@)),
        final(accum_join_keys)@.len() == old(accum_join_keys)@.len() + 1,
        forall|t: int|
            0 <= t < old(accum_join_keys)@.len() ==> final(accum_join_keys)@[t] == old(accum_join_keys)@[t],
        final(accum_join_keys)@[old(accum_join_keys)@.len() as int].0@ == a@ && final(accum_join_keys)@[old(accum_join_keys)@.len() as int].1@ == b@,
{
    let ghost oldkeys = crate::expression_utils::view_pairs(accum_join_keys@);
    let ghost prevec = accum_join_keys@;
    let p = (a.clone_expr(), b.clone_expr());
    accum_join_keys.push(p);
    proof {
        assert forall|t: int|
            0 <= t < accum_join_keys@.len() implies crate::expression_utils::view_pairs(
            accum_join_keys@,
        )[t] == oldkeys.push((a@, b@))[t] by {
            if t < prevec.len() {
                assert(accum_join_keys@[t] == prevec[t]);
            }
        }
        assert(crate::expression_utils::view_pairs(accum_join_keys@) =~= oldkeys.push((a@, b@)));
    }
}

/// Appends one conjunct to the residual filters.
fn push_filter(accum_filters: &mut Vec<ScalarExpr>, e: &ScalarExpr)
    ensures
        final(accum_filters).deep_view() == old(accum_filters).deep_view().push(e@),
{
    let ghost oldfilters = accum_filters.deep_view();
    let ghost prevec = accum_filters@;
    accum_filters.push(e.clone_expr());
    proof {
        assert forall|t: int|
            0 <= t < accum_filters@.len() implies accum_filters.deep_view()[t] == oldfilters.push(
            e@,
        )[t] by {
            assert(accum_filters.deep_view()[t] == accum_filters@[t]@);
            if t < prevec.len() {
                assert(accum_filters@[t] == prevec[t]);
            }
        }
        assert(accum_filters.deep_view() =~= oldfilters.push(e@));
    }
}

/// Sorts one conjunct into the key pairs or the residual filters, as one
/// step of the classification fold.
fn split_one_conjunct(
    e: &ScalarExpr,
    left_schema: &Schema,
    right_schema: &Schema,
    accum_join_keys: &mut Vec<(ScalarExpr, ScalarExpr)>,
    accum_filters: &mut Vec<ScalarExpr>,
)
    requires
        forall|k: int|
            0 <= k < old(accum_join_keys)@.len() ==> crate::plan::schema_resolves(
                left_schema@,
                column_of((#[trigger] old(accum_join_keys)@[k]).0@),
            ) && crate::plan::schema_resolves(
                right_schema@,
                column_of(old(accum_join_keys)@[k].1@),
            ) && old(accum_join_keys)@[k].0@ is Column && old(accum_join_keys)@[k].1@ is Column,
    ensures
        (
            crate::expression_utils::view_pairs(final(accum_join_keys)@),
            final(accum_filters).deep_view(),
        ) == split_step(
            left_schema@,
            right_schema@,
            crate::expression_utils::view_pairs(old(accum_join_keys)@),
            old(accum_filters).deep_view(),
            e@,
        ),
        forall|k: int|
            0 <= k < final(accum_join_keys)@.len() ==> crate::plan::schema_resolves(
                left_schema@,
                column_of((#[trigger] final(accum_join_keys)@[k]).0@),
            ) && crate::plan::schema_resolves(
                right_schema@,
                column_of(final(accum_join_keys)@[k].1@),
            ) && final(accum_join_keys)@[k].0@ is Column && final(accum_join_keys)@[k].1@
                is Column,
{
    let ghost oldkeys = crate::expression_utils::view_pairs(accum_join_keys@);
    let ghost oldfilters = accum_filters.deep_view();
    match e {
        ScalarExpr::Eq(l, r) => {
            match (&**l, &**r) {
                (ScalarExpr::Column(cl), ScalarExpr::Column(cr)) => {
                    proof {
                        assert(e@ == ExprV::Eq(Box::new((**l)@), Box::new((**r)@)));
                        assert((**l)@ == ExprV::Column(cl@));
                        assert((**r)@ == ExprV::Column(cr@));
                    }
                    if left_schema.resolves(cl) && right_schema.resolves(cr) {
                        if !key_is_seen(accum_join_keys, l, r) {
                            push_key(accum_join_keys, l, r);
                        }
                    } else if left_schema.resolves(cr) && right_schema.resolves(cl) {
                        if !key_is_seen(accum_join_keys, r, l) {
                            push_key(accum_join_keys, r, l);
                        }
                    } else {
                        push_filter(accum_filters, e);
                    }
                },
                _ => {
                    push_filter(accum_filters, e);
                },
            }
        },
        _ => {
            push_filter(accum_filters, e);
        },
    }
}


/// Whether the second map keeps every entry of the first.
pub open spec fn memo_extends(m1: Map<u64, usize>, m2: Map<u64, usize>) -> bool {
    forall|h: u64|
        #[trigger] m1.dom().contains(h) ==> m2.dom().contains(h) && m2[h] == m1[h]
}

/// Keeping entries is transitive.
proof fn lemma_memo_extends_trans(m1: Map<u64, usize>, m2: Map<u64, usize>, m3: Map<u64, usize>)
    requires
        memo_extends(m1, m2),
        memo_extends(m2, m3),
    ensures
        memo_extends(m1, m3),
{
    assert forall|h: u64|
        #[trigger] m1.dom().contains(h) implies m3.dom().contains(h) && m3[h] == m1[h] by {
        assert(m2.dom().contains(h) && m2[h] == m1[h]);
        assert(m3.dom().contains(h) && m3[h] == m2[h]);
    }
}

/// Binding a fresh key keeps every present entry.
proof fn lemma_memo_extends_insert(m: Map<u64, usize>, k: u64, v: usize)
    requires
        !m.dom().contains(k),
    ensures
        memo_extends(m, m.insert(k, v)),
{
    assert forall|h: u64|
        #[trigger] m.dom().contains(h) implies m.insert(k, v).dom().contains(h) && m.insert(
            k,
            v,
        )[h] == m[h] by {
        assert(h != k);
    }
}

/// Registers freshly derived expressions: one whose fingerprint the memo has
/// never seen joins the originating group's queue under that fingerprint; one
/// seen before is dropped, so no rule ever fires twice on the same
/// expression.
fn add_new_mexprs(
    gid: usize,
    transformed: Vec<MExpr>,
    memo: &mut ahash::AHashMap<u64, usize>,
    groups: &mut Vec<Group>,
)
    requires
        memo_wf(memo_entries(*old(memo)), old(groups)@),
        (gid as int) < old(groups)@.len(),
        forall|k: int|
            0 <= k < transformed@.len() ==> ops_in_range(
                (#[trigger] transformed@[k]).operands@,
                old(groups)@.len(),
            ),
        forall|k: int|
            0 <= k < old(groups)@[gid as int].unexplored_equivalent_logical_mexprs@.len()
                ==> ops_in_range(
                (#[trigger] old(groups)@[gid as int].unexplored_equivalent_logical_mexprs@[k]).operands@,
                old(groups)@.len(),
            ),
    ensures
        memo_wf(memo_entries(*final(memo)), final(groups)@),
        final(groups)@.len() == old(groups)@.len(),
        forall|i: int|
            0 <= i < old(groups)@.len() && i != gid as int ==> final(groups)@[i] == old(groups)@[i],
        final(groups)@[gid as int].explored == old(groups)@[gid as int].explored,
        final(groups)@[gid as int].equivalent_logical_mexprs == old(groups)@[gid as int].equivalent_logical_mexprs,
        final(groups)@[gid as int].cheapest_logical_expression == old(groups)@[gid as int].cheapest_logical_expression,
        final(groups)@[gid as int].min_cost == old(groups)@[gid as int].min_cost,
        final(groups)@[gid as int].start_expression == old(groups)@[gid as int].start_expression,
        final(groups)@[gid as int].source_node == old(groups)@[gid as int].source_node,
        old(groups)@[gid as int].unexplored_equivalent_logical_mexprs@.len() <= final(groups)@[gid as int].unexplored_equivalent_logical_mexprs@.len(),
        forall|k: int|
            0 <= k < old(groups)@[gid as int].unexplored_equivalent_logical_mexprs@.len() ==> final(groups)@[gid as int].unexplored_equivalent_logical_mexprs@[k] == #[trigger] old(groups)@[gid as int].unexplored_equivalent_logical_mexprs@[k],
        forall|k: int|
            0 <= k < final(groups)@[gid as int].unexplored_equivalent_logical_mexprs@.len()
                ==> ops_in_range(
                (#[trigger] final(groups)@[gid as int].unexplored_equivalent_logical_mexprs@[k]).operands@,
                old(groups)@.len(),
            ),
        memo_entries(*old(memo)).dom().len() <= memo_entries(*final(memo)).dom().len(),
        memo_entries(*final(memo)).dom().len() - memo_entries(*old(memo)).dom().len() == final(groups)@[gid as int].unexplored_equivalent_logical_mexprs@.len() - old(groups)@[gid as int].unexplored_equivalent_logical_mexprs@.len(),
        memo_extends(memo_entries(*old(memo)), memo_entries(*final(memo))),
        forall|k: int|
            0 <= k < transformed@.len() ==> memo_entries(*final(memo)).dom().contains(
                (#[trigger] transformed@[k]).hash,
            ),
        forall|t: int|
            old(groups)@[gid as int].unexplored_equivalent_logical_mexprs@.len() <= t < final(groups)@[gid as int].unexplored_equivalent_logical_mexprs@.len() ==> exists|k: int|
                0 <= k < transformed@.len() && same_mexpr(
                    #[trigger] final(groups)@[gid as int].unexplored_equivalent_logical_mexprs@[t],
                    transformed@[k],
                ) && memo_entries(*final(memo))[final(groups)@[gid as int].unexplored_equivalent_logical_mexprs@[t].hash] == gid,
{
    let mut t: usize = 0;
    let ghost n = old(groups)@.len();
    while t < transformed.len()
        invariant
            t <= transformed@.len(),
            (gid as int) < groups@.len(),
            groups@.len() == n,
            memo_wf(memo_entries(*memo), groups@),
            forall|k: int|
                0 <= k < transformed@.len() ==> ops_in_range(
                    (#[trigger] transformed@[k]).operands@,
                    n,
                ),
            forall|i: int| 0 <= i < n && i != gid as int ==> groups@[i] == old(groups)@[i],
            groups@[gid as int].explored == old(groups)@[gid as int].explored,
            groups@[gid as int].equivalent_logical_mexprs == old(groups)@[gid as int].equivalent_logical_mexprs,
            groups@[gid as int].cheapest_logical_expression == old(groups)@[gid as int].cheapest_logical_expression,
            groups@[gid as int].min_cost == old(groups)@[gid as int].min_cost,
            groups@[gid as int].start_expression == old(groups)@[gid as int].start_expression,
            groups@[gid as int].source_node == old(groups)@[gid as int].source_node,
            old(groups)@[gid as int].unexplored_equivalent_logical_mexprs@.len()
                <= groups@[gid as int].unexplored_equivalent_logical_mexprs@.len(),
            forall|k: int|
                0 <= k < old(groups)@[gid as int].unexplored_equivalent_logical_mexprs@.len()
                    ==> groups@[gid as int].unexplored_equivalent_logical_mexprs@[k] == #[trigger] old(groups)@[gid as int].unexplored_equivalent_logical_mexprs@[k],
            forall|k: int|
                0 <= k < groups@[gid as int].unexplored_equivalent_logical_mexprs@.len()
                    ==> ops_in_range(
                    (#[trigger] groups@[gid as int].unexplored_equivalent_logical_mexprs@[k]).operands@,
                    n,
                ),
            memo_entries(*old(memo)).dom().len() <= memo_entries(*memo).dom().len(),
            memo_entries(*memo).dom().len() - memo_entries(*old(memo)).dom().len()
                == groups@[gid as int].unexplored_equivalent_logical_mexprs@.len() - old(groups)@[gid as int].unexplored_equivalent_logical_mexprs@.len(),
            memo_extends(memo_entries(*old(memo)), memo_entries(*memo)),
            forall|k: int|
                0 <= k < t ==> memo_entries(*memo).dom().contains(
                    (#[trigger] transformed@[k]).hash,
                ),
            forall|t2: int|
                old(groups)@[gid as int].unexplored_equivalent_logical_mexprs@.len() <= t2
                    < groups@[gid as int].unexplored_equivalent_logical_mexprs@.len() ==> exists|k: int|
                    0 <= k < transformed@.len() && same_mexpr(
                        #[trigger] groups@[gid as int].unexplored_equivalent_logical_mexprs@[t2],
                        transformed@[k],
                    ) && memo_entries(*memo)[groups@[gid as int].unexplored_equivalent_logical_mexprs@[t2].hash] == gid,
        decreases transformed@.len() - t,
    {
        let new_expr = &transformed[t];
        let hash = new_expr.hash();
        match memo_get(memo, hash) {
            Some(_) => {
                proof {
                    assert(memo_entries(*memo).dom().contains(transformed@[t as int].hash));
                }
            },
            None => {
                let ghost oldm = memo_entries(*memo);
                let ghost oldq = groups@;
                let ghost oldqueue = groups@[gid as int].unexplored_equivalent_logical_mexprs@;
                memo_insert(memo, hash, gid);
                let gref = &mut groups[gid];
                gref.unexplored_equivalent_logical_mexprs.push_back(new_expr.clone_mexpr());
                proof {
                    let m2 = memo_entries(*memo);
                    let gs2 = groups@;
                    assert(m2 == oldm.insert(hash, gid));
                    assert(m2.dom() =~= oldm.dom().insert(hash));
                    assert forall|gid2: int| 0 <= gid2 < gs2.len() implies m2.dom().contains(
                        group_hash_of(#[trigger] gs2[gid2]),
                    ) && m2[group_hash_of(gs2[gid2])] as int == gid2 by {
                        assert(gs2[gid2].start_expression == oldq[gid2].start_expression);
                        assert(gs2[gid2].source_node == oldq[gid2].source_node);
                        assert(group_hash_of(gs2[gid2]) == group_hash_of(oldq[gid2]));
                        assert(oldm.dom().contains(group_hash_of(oldq[gid2])));
                        assert(group_hash_of(oldq[gid2]) != hash);
                    }
                }
            },
        }
        t = t + 1;
    }
}


/// Whether the member is a two-operand inner join.
pub open spec fn is_inner_join2(m: MExpr) -> bool {
    m.op@ matches crate::plan::PlanV::Join { join_type: JoinType::Inner, .. } && m.operands@.len()
        == 2
}

/// The schema a group's start expression presents, where there is one.
pub open spec fn start_schema_view(groups: Seq<Group>, gid: int) -> Option<
    Seq<crate::expr::ColumnV>,
> {
    match groups[gid].start_expression {
        Some(e) => crate::plan::schema_of_view(e.op@),
        None => None,
    }
}

/// Whether associativity can reshape around this left-group member: it is a
/// two-operand inner join and the schemas of both of its operand groups and
/// of the right group all resolve.
pub open spec fn assoc_applicable(groups: Seq<Group>, m: MExpr, rightg: int) -> bool {
    &&& is_inner_join2(m)
    &&& start_schema_view(groups, m.operands@[0] as int) is Some
    &&& start_schema_view(groups, m.operands@[1] as int) is Some
    &&& start_schema_view(groups, rightg) is Some
}

/// How many members of the list associativity can reshape around.
pub open spec fn count_applicable(groups: Seq<Group>, eq: Seq<MExpr>, rightg: int) -> int
    decreases eq.len(),
{
    if eq.len() == 0 {
        0
    } else {
        count_applicable(groups, eq.drop_last(), rightg) + if assoc_applicable(
            groups,
            eq.last(),
            rightg,
        ) {
            1int
        } else {
            0int
        }
    }
}

/// Applies join associativity: for an inner join whose left group holds an
/// explored inner-join member, the combined predicate of both joins is split
/// afresh so that the join nests to the right instead, interning the new
/// lower join as its own group.
fn apply_join_associativity(
    mexpr: &MExpr,
    memo: &mut ahash::AHashMap<u64, usize>,
    groups: &mut Vec<Group>,
) -> (r: Vec<MExpr>)
    requires
        memo_wf(memo_entries(*old(memo)), old(groups)@),
        groups_members_ok(old(groups)@),
        ops_in_range(mexpr.operands@, old(groups)@.len()),
        memo_entries(*old(memo)).dom().len() <= fingerprint_space(),
    ensures
        memo_wf(memo_entries(*final(memo)), final(groups)@),
        old(groups)@.len() <= final(groups)@.len(),
        forall|i: int| 0 <= i < old(groups)@.len() ==> final(groups)@[i] == old(groups)@[i],
        forall|i: int|
            old(groups)@.len() <= i < final(groups)@.len() ==> fresh_group_ok(
                #[trigger] final(groups)@[i],
                final(groups)@.len(),
            ),
        forall|k: int|
            0 <= k < r@.len() ==> ops_in_range(
                (#[trigger] r@[k]).operands@,
                final(groups)@.len(),
            ),
        memo_entries(*old(memo)).dom().len() <= memo_entries(*final(memo)).dom().len(),
        memo_entries(*final(memo)).dom().len() <= fingerprint_space(),
        total_unexplored(final(groups)@) - total_unexplored(old(groups)@) == memo_entries(
            *final(memo),
        ).dom().len() - memo_entries(*old(memo)).dom().len(),
        if is_inner_join2(*mexpr) {
            r@.len() == count_applicable(
                old(groups)@,
                old(groups)@[mexpr.operands@[0] as int].equivalent_logical_mexprs@,
                mexpr.operands@[1] as int,
            )
        } else {
            r@.len() == 0
        },
        forall|k: int| 0 <= k < r@.len() ==> is_inner_join2(#[trigger] r@[k]),
{
    let mut result: Vec<MExpr> = Vec::new();
    let is_inner_join = match &mexpr.op {
        PlanNode::Join { join_type: JoinType::Inner, .. } => true,
        _ => false,
    };
    if !(is_inner_join && mexpr.operands.len() == 2) {
        return result;
    }
    let leftg = mexpr.operands[0];
    let rightg = mexpr.operands[1];
    // Collect the left group's explored inner-join members first, so that the
    // arena can grow while the variants are processed.
    let mut left_joins: Vec<MExpr> = Vec::new();
    let ghost eq0 = groups@[leftg as int].equivalent_logical_mexprs@;
    let mut k: usize = 0;
    proof {
        assert(eq0.take(0) =~= Seq::<MExpr>::empty());
    }
    while k < groups[leftg].equivalent_logical_mexprs.len()
        invariant
            (leftg as int) < groups@.len(),
            groups_members_ok(groups@),
            eq0 == groups@[leftg as int].equivalent_logical_mexprs@,
            k <= eq0.len(),
            forall|t: int|
                0 <= t < left_joins@.len() ==> ops_in_range(
                    (#[trigger] left_joins@[t]).operands@,
                    groups@.len(),
                ) && is_inner_join2(left_joins@[t]),
            count_applicable(groups@, left_joins@, rightg as int) == count_applicable(
                groups@,
                eq0.take(k as int),
                rightg as int,
            ),
        decreases groups@[leftg as int].equivalent_logical_mexprs@.len() - k,
    {
        let m = &groups[leftg].equivalent_logical_mexprs[k];
        let keep = match &m.op {
            PlanNode::Join { join_type: JoinType::Inner, .. } => m.operands.len() == 2,
            _ => false,
        };
        let ghost prejoins = left_joins@;
        if keep {
            proof {
                assert(group_members_ok(groups@, leftg as int));
            }
            left_joins.push(m.clone_mexpr());
        }
        k = k + 1;
        proof {
            assert(eq0.take(k as int).drop_last() =~= eq0.take(k as int - 1));
            assert(eq0.take(k as int).last() == eq0[k as int - 1]);
            if keep {
                assert(left_joins@.drop_last() =~= prejoins);
                let c = left_joins@.last();
                assert(c.op@ == eq0[k as int - 1].op@ && c.operands@ == eq0[k as int - 1].operands@);
                assert(assoc_applicable(groups@, c, rightg as int) == assoc_applicable(
                    groups@,
                    eq0[k as int - 1],
                    rightg as int,
                ));
            } else {
                assert(!is_inner_join2(eq0[k as int - 1]));
                assert(!assoc_applicable(groups@, eq0[k as int - 1], rightg as int));
            }
        }
    }
    proof {
        assert(eq0.take(eq0.len() as int) =~= eq0);
    }
    let ghost n0 = groups@.len();
    let mut v: usize = 0;
    while v < left_joins.len()
        invariant
            memo_wf(memo_entries(*memo), groups@),
            groups_members_ok(groups@),
            n0 <= groups@.len(),
            n0 == old(groups)@.len(),
            (leftg as int) < n0,
            (rightg as int) < n0,
            forall|i: int| 0 <= i < n0 ==> groups@[i] == old(groups)@[i],
            forall|i: int|
                n0 <= i < groups@.len() ==> fresh_group_ok(#[trigger] groups@[i], groups@.len()),
            forall|t: int|
                0 <= t < left_joins@.len() ==> ops_in_range(
                    (#[trigger] left_joins@[t]).operands@,
                    n0,
                ) && is_inner_join2(left_joins@[t]),
            forall|t: int|
                0 <= t < result@.len() ==> ops_in_range(
                    (#[trigger] result@[t]).operands@,
                    groups@.len(),
                ) && is_inner_join2(result@[t]),
            v <= left_joins@.len(),
            result@.len() == count_applicable(
                old(groups)@,
                left_joins@.take(v as int),
                rightg as int,
            ),
            memo_entries(*old(memo)).dom().len() <= memo_entries(*memo).dom().len(),
            memo_entries(*memo).dom().len() <= fingerprint_space(),
            total_unexplored(groups@) - total_unexplored(old(groups)@) == memo_entries(
                *memo,
            ).dom().len() - memo_entries(*old(memo)).dom().len(),
        decreases left_joins@.len() - v,
    {
        let lm = &left_joins[v];
        proof {
            assert(left_joins@.take(v as int + 1).drop_last() =~= left_joins@.take(v as int));
            assert(left_joins@.take(v as int + 1).last() == left_joins@[v as int]);
        }
        let has_on_filter = get_join_on_filter(&lm.op);
        let cur_on_filter = get_join_on_filter(&mexpr.op);
        match (has_on_filter, cur_on_filter) {
            (Some(mut conj), Some(mut conj2)) => {
                let mut all_conj = conj;
                let mut c2 = conj2;
                let mut ci: usize = 0;
                while ci < c2.len()
                    decreases c2@.len() - ci,
                {
                    all_conj.push(c2[ci].clone_expr());
                    ci = ci + 1;
                }
                let combined = match conjunction(&all_conj) {
                    Some(c) => c,
                    None => ScalarExpr::LiteralBool(true),
                };
                let aa = lm.operands[0];
                let bb = lm.operands[1];
                proof {
                    assert(groups@[aa as int] == old(groups)@[aa as int]);
                    assert(groups@[bb as int] == old(groups)@[bb as int]);
                    assert(groups@[rightg as int] == old(groups)@[rightg as int]);
                    assert(aa == left_joins@[v as int].operands@[0]);
                    assert(bb == left_joins@[v as int].operands@[1]);
                }
                let sa = match start_schema(groups, aa) {
                    Some(s) => s,
                    None => {
                        proof {
                            assert(!assoc_applicable(old(groups)@, left_joins@[v as int], rightg as int));
                        }
                        v = v + 1;
                        continue ;
                    },
                };
                let sb = match start_schema(groups, bb) {
                    Some(s) => s,
                    None => {
                        proof {
                            assert(!assoc_applicable(old(groups)@, left_joins@[v as int], rightg as int));
                        }
                        v = v + 1;
                        continue ;
                    },
                };
                let sc = match start_schema(groups, rightg) {
                    Some(s) => s,
                    None => {
                        proof {
                            assert(!assoc_applicable(old(groups)@, left_joins@[v as int], rightg as int));
                        }
                        v = v + 1;
                        continue ;
                    },
                };
                proof {
                    assert(assoc_applicable(old(groups)@, left_joins@[v as int], rightg as int));
                }
                let (on1, _rest1) = split_eq_and_noneq_join_predicate(&combined, &sb, &sc);
                let bc_schema = build_join_schema(&sb, &sc);
                let constraint = join_constraint_of(&mexpr.op);
                // The residual is deliberately not attached: reshaped joins
                // over the same operands must collide in the memo, and a
                // residual re-joined from an order-dependent conjunct walk
                // would split logically equivalent variants into distinct
                // fingerprints and let the recombination churn without end.
                let bc_node = PlanNode::Join {
                    left: Box::new(PlanNode::EmptyRelation { schema: Schema::new(Vec::new()) }),
                    right: Box::new(PlanNode::EmptyRelation { schema: Schema::new(Vec::new()) }),
                    on: on1,
                    filter: None,
                    join_type: JoinType::Inner,
                    join_constraint: constraint,
                    schema: bc_schema,
                };
                let mut bc_ops: Vec<usize> = Vec::new();
                bc_ops.push(bb);
                bc_ops.push(rightg);
                let bc_mexpr = MExpr::build_with_node(bc_node, bc_ops, groups);
                let ghost bcm = bc_mexpr;
                let ghost pregs = groups@;
                let ghost prememo = memo_entries(*memo);
                let bc_gid = gen_or_get_from_memo(memo, groups, bc_mexpr);
                proof {
                    if groups@.len() > pregs.len() {
                        let gnew = groups@[groups@.len() - 1];
                        assert(gnew.unexplored_equivalent_logical_mexprs@ == seq![bcm]);
                        assert(gnew.unexplored_equivalent_logical_mexprs@[0] == bcm);
                        assert(ops_in_range(bcm.operands@, pregs.len()));
                        match gnew.start_expression {
                            Some(st) => {
                                assert(st.operands@ == bcm.operands@);
                            },
                            None => {},
                        }
                        assert(fresh_group_ok(gnew, pregs.len()));
                        assert(group_hash_of(gnew) == bcm.hash);
                    }
                    restore_arena_after_intern(
                        prememo,
                        memo_entries(*memo),
                        pregs,
                        groups@,
                        n0,
                    );
                }
                let bc_schema2 = build_join_schema(&sb, &sc);
                let (on2, _rest2) = split_eq_and_noneq_join_predicate(&combined, &sa, &bc_schema2);
                let top_schema = build_join_schema(&sa, &bc_schema2);
                let constraint2 = join_constraint_of(&lm.op);
                let top_node = PlanNode::Join {
                    left: Box::new(PlanNode::EmptyRelation { schema: Schema::new(Vec::new()) }),
                    right: Box::new(PlanNode::EmptyRelation { schema: Schema::new(Vec::new()) }),
                    on: on2,
                    filter: None,
                    join_type: JoinType::Inner,
                    join_constraint: constraint2,
                    schema: top_schema,
                };
                let mut top_ops: Vec<usize> = Vec::new();
                top_ops.push(aa);
                top_ops.push(bc_gid);
                let top_mexpr = MExpr::build_with_node(top_node, top_ops, groups);
                result.push(top_mexpr);
                proof {
                    assert forall|t: int|
                        0 <= t < result@.len() implies ops_in_range(
                        (#[trigger] result@[t]).operands@,
                        groups@.len(),
                    ) && is_inner_join2(result@[t]) by {
                        if t < result@.len() - 1 {
                            lemma_ops_in_range_monotone(
                                result@[t].operands@,
                                pregs.len(),
                                groups@.len(),
                            );
                        }
                    }
                }
            },
            _ => {
                proof {
                    assert(lm.op@ is Join);
                    assert(mexpr.op@ is Join);
                    assert(false);
                }
            },
        }
        v = v + 1;
    }
    proof {
        assert(left_joins@.take(left_joins@.len() as int) =~= left_joins@);
    }
    result
}

/// A group freshly interned during rule application: unexplored, with only
/// its seed queued.
pub open spec fn fresh_group_ok(g: Group, n: nat) -> bool {
    &&& !g.explored
    &&& g.equivalent_logical_mexprs@.len() == 0
    &&& g.cheapest_logical_expression is None
    &&& g.unexplored_equivalent_logical_mexprs@.len() == 1
    &&& ops_in_range(g.unexplored_equivalent_logical_mexprs@[0].operands@, n)
    &&& match g.start_expression {
        Some(e) => ops_in_range(e.operands@, n),
        None => true,
    }
}

/// Restores the arena facts after one interning step of the associativity
/// rule: the arena either stands as it was, or carries one fresh singleton
/// group paid for by one fresh memo entry.
proof fn restore_arena_after_intern(
    prememo: Map<u64, usize>,
    memo: Map<u64, usize>,
    pregs: Seq<Group>,
    groups: Seq<Group>,
    n0: nat,
)
    requires
        memo_wf(memo, groups),
        groups_members_ok(pregs),
        n0 <= pregs.len(),
        pregs.len() <= groups.len() <= pregs.len() + 1,
        forall|i: int| 0 <= i < pregs.len() ==> groups[i] == pregs[i],
        forall|i: int|
            n0 <= i < pregs.len() ==> fresh_group_ok(#[trigger] pregs[i], pregs.len()),
        groups.len() == pregs.len() + 1 ==> fresh_group_ok(
            groups[groups.len() - 1],
            pregs.len(),
        ) && memo == prememo.insert(group_hash_of(groups[groups.len() - 1]), (groups.len()
            - 1) as usize) && !prememo.dom().contains(group_hash_of(groups[groups.len() - 1])),
        groups.len() == pregs.len() ==> memo == prememo,
        prememo.dom().finite(),
    ensures
        groups_members_ok(groups),
        forall|i: int|
            n0 <= i < groups.len() ==> fresh_group_ok(#[trigger] groups[i], groups.len()),
        memo.dom().len() <= fingerprint_space(),
        prememo.dom().len() <= memo.dom().len(),
        total_unexplored(groups) - total_unexplored(pregs) == memo.dom().len()
            - prememo.dom().len(),
{
    lemma_u64_key_bound(memo.dom());
    assert forall|i: int| 0 <= i < groups.len() implies #[trigger] group_members_ok(
        groups,
        i,
    ) by {
        if i < pregs.len() {
            lemma_members_ok_monotone(pregs, groups, i);
        } else {
            let g = groups[i];
            assert(fresh_group_ok(g, pregs.len()));
            lemma_ops_in_range_monotone(
                g.unexplored_equivalent_logical_mexprs@[0].operands@,
                pregs.len(),
                groups.len(),
            );
            match g.start_expression {
                Some(e) => {
                    lemma_ops_in_range_monotone(e.operands@, pregs.len(), groups.len());
                },
                None => {},
            }
            assert forall|k: int|
                0 <= k < g.unexplored_equivalent_logical_mexprs@.len() implies ops_in_range(
                (#[trigger] g.unexplored_equivalent_logical_mexprs@[k]).operands@,
                groups.len(),
            ) by {
                assert(k == 0);
            }
        }
    }
    assert forall|i: int| n0 <= i < groups.len() implies fresh_group_ok(
        #[trigger] groups[i],
        groups.len(),
    ) by {
        let g = groups[i];
        assert(fresh_group_ok(g, pregs.len()));
        lemma_ops_in_range_monotone(
            g.unexplored_equivalent_logical_mexprs@[0].operands@,
            pregs.len(),
            groups.len(),
        );
        match g.start_expression {
            Some(e) => {
                lemma_ops_in_range_monotone(e.operands@, pregs.len(), groups.len());
            },
            None => {},
        }
    }
    if groups.len() == pregs.len() + 1 {
        assert(groups =~= pregs.push(groups[groups.len() - 1]));
        lemma_total_push(pregs, groups[groups.len() - 1]);
        assert(memo.dom() =~= prememo.dom().insert(group_hash_of(groups[groups.len() - 1])));
    } else {
        assert(groups =~= pregs);
    }
}

/// The equality conjuncts a join payload carries, as one list: each `on` pair
/// as an equality, then the residual filter.
fn get_join_on_filter(op: &PlanNode) -> (r: Option<Vec<ScalarExpr>>)
    ensures
        r is Some <==> op@ is Join,
{
    match op {
        PlanNode::Join { on, filter, .. } => {
            let mut out: Vec<ScalarExpr> = Vec::new();
            let mut k: usize = 0;
            while k < on.len()
                decreases on@.len() - k,
            {
                let pair = &on[k];
                out.push(
                    ScalarExpr::Eq(
                        Box::new(pair.0.clone_expr()),
                        Box::new(pair.1.clone_expr()),
                    ),
                );
                k = k + 1;
            }
            match filter {
                Some(f) => {
                    out.push(f.clone_expr());
                },
                None => {},
            }
            Some(out)
        },
        _ => None,
    }
}

/// The constraint flavour a join payload carries; `On` for any other
/// operator.
fn join_constraint_of(op: &PlanNode) -> (r: JoinConstraint) {
    match op {
        PlanNode::Join { join_constraint, .. } => *join_constraint,
        _ => JoinConstraint::On,
    }
}

/// The schema of a group's start expression, where there is one.
fn start_schema(groups: &Vec<Group>, gid: usize) -> (r: Option<Schema>)
    requires
        (gid as int) < groups@.len(),
    ensures
        r.deep_view() == start_schema_view(groups@, gid as int),
{
    match &groups[gid].start_expression {
        Some(e) => e.get_schema(),
        None => None,
    }
}

/// The driver and rule matcher. It owns no state of its own; the memo and
/// the arena are handed in.
#[derive(Debug)]
pub struct RuleMatcher {}

impl RuleMatcher {
    /// A fresh rule matcher.
    pub fn new() -> (r: RuleMatcher) {
        RuleMatcher {  }
    }

    /// Whether the expression can be matched at all; every expression can.
    pub fn test_match(&self, _match_against: &MExpr) -> (r: bool)
        ensures
            r,
    {
        true
    }

    /// Explores the group to a fixed point, children first: drains its queue,
    /// fires the transformation rules on each popped expression, computes its
    /// cost once its operand groups are explored, and caches the cheapest
    /// member once the queue stays empty.
    #[verifier::rlimit(100)]
    #[verifier::spinoff_prover]
    pub fn explore(
        &mut self,
        root: usize,
        memo: &mut ahash::AHashMap<u64, usize>,
        groups: &mut Vec<Group>,
        table: &SelectivityTable,
    )
        requires
            (root as int) < old(groups)@.len(),
            optimizer_wf(memo_entries(*old(memo)), old(groups)@),
            table.wf(),
        ensures
            optimizer_wf(memo_entries(*final(memo)), final(groups)@),
            old(groups)@.len() <= final(groups)@.len(),
            forall|i: int|
                0 <= i < old(groups)@.len() && old(groups)@[i].explored ==> (#[trigger] final(groups)@[i]).explored,
            final(groups)@[root as int].explored,
            old(groups)@[root as int].explored ==> final(groups)@ == old(groups)@ && memo_entries(
                *final(memo),
            ) == memo_entries(*old(memo)),
            forall|gid: int|
                0 <= gid < old(groups)@.len() ==> eq_prefix(
                    (#[trigger] old(groups)@[gid]).equivalent_logical_mexprs@,
                    final(groups)@[gid].equivalent_logical_mexprs@,
                ),
            forall|gid: int, k: int|
                #![trigger old(groups)@[gid].unexplored_equivalent_logical_mexprs@[k]]
                0 <= gid < old(groups)@.len() && 0 <= k < old(
                    groups,
                )@[gid].unexplored_equivalent_logical_mexprs@.len() ==> core_in_group(
                    old(groups)@[gid].unexplored_equivalent_logical_mexprs@[k],
                    final(groups)@,
                    Seq::empty(),
                    gid,
                ),
    {
        if groups[root].is_explored() {
            proof {
                assert forall|gid: int|
                    0 <= gid < groups@.len() implies eq_prefix(
                    (#[trigger] groups@[gid]).equivalent_logical_mexprs@,
                    groups@[gid].equivalent_logical_mexprs@,
                ) by {}
                assert forall|gid: int, k: int|
                    #![trigger groups@[gid].unexplored_equivalent_logical_mexprs@[k]]
                    0 <= gid < groups@.len() && 0 <= k
                        < groups@[gid].unexplored_equivalent_logical_mexprs@.len() implies core_in_group(
                    groups@[gid].unexplored_equivalent_logical_mexprs@[k],
                    groups@,
                    Seq::empty(),
                    gid,
                ) by {
                    assert(mexpr_core_eq(
                        groups@[gid].unexplored_equivalent_logical_mexprs@[k],
                        groups@[gid].unexplored_equivalent_logical_mexprs@[k],
                    ));
                }
            }
            return ;
        }
        let mut tasks: Vec<Task> = Vec::new();
        tasks.push(Task::ExploreGroup(root));
        proof {
            lemma_u64_key_bound(memo_entries(*memo).dom());
            assert(names_gid(tasks@[0], root as int));
            assert forall|gid: int, k: int|
                #![trigger groups@[gid].unexplored_equivalent_logical_mexprs@[k]]
                0 <= gid < groups@.len() && 0 <= k
                    < groups@[gid].unexplored_equivalent_logical_mexprs@.len() implies core_in_group(
                groups@[gid].unexplored_equivalent_logical_mexprs@[k],
                groups@,
                tasks@,
                gid,
            ) by {
                assert(mexpr_core_eq(
                    groups@[gid].unexplored_equivalent_logical_mexprs@[k],
                    groups@[gid].unexplored_equivalent_logical_mexprs@[k],
                ));
            }
        }
        loop
            invariant
                explore_inv(memo_entries(*memo), groups@, tasks@),
                old(groups)@.len() <= groups@.len(),
                forall|i: int|
                    0 <= i < old(groups)@.len() && old(groups)@[i].explored ==> groups@[i].explored,
                table.wf(),
                groups@[root as int].explored || exists|k: int|
                    0 <= k < tasks@.len() && names_gid(#[trigger] tasks@[k], root as int),
                (root as int) < groups@.len(),
                forall|gid: int|
                    0 <= gid < old(groups)@.len() ==> eq_prefix(
                        (#[trigger] old(groups)@[gid]).equivalent_logical_mexprs@,
                        groups@[gid].equivalent_logical_mexprs@,
                    ),
                forall|gid: int, k: int|
                    #![trigger old(groups)@[gid].unexplored_equivalent_logical_mexprs@[k]]
                    0 <= gid < old(groups)@.len() && 0 <= k < old(
                        groups,
                    )@[gid].unexplored_equivalent_logical_mexprs@.len() ==> core_in_group(
                        old(groups)@[gid].unexplored_equivalent_logical_mexprs@[k],
                        groups@,
                        tasks@,
                        gid,
                    ),
            decreases
                fingerprint_space() - memo_entries(*memo).dom().len(),
                total_unexplored(groups@),
                stack_weight(tasks@),
        {
            let ghost pre_tasks = tasks@;
            let task = match tasks.pop() {
                Some(t) => t,
                None => {
                    break ;
                },
            };
            proof {
                assert(pre_tasks.drop_last() =~= tasks@);
                assert(pre_tasks.last() == task);
            }
            match task {
                Task::ExploreGroup(g) => {
                    let explored = groups[g].is_explored();
                    if !explored {
                        tasks.push(Task::GroupLoop(g));
                    }
                    proof {
                        self.restore_after_explore_task(
                            memo_entries(*memo),
                            groups@,
                            pre_tasks,
                            tasks@,
                            g,
                        );
                        assert forall|gid: int, k: int|
                            #![trigger old(groups)@[gid].unexplored_equivalent_logical_mexprs@[k]]
                            0 <= gid < old(groups)@.len() && 0 <= k < old(
                                groups,
                            )@[gid].unexplored_equivalent_logical_mexprs@.len() implies core_in_group(
                            old(groups)@[gid].unexplored_equivalent_logical_mexprs@[k],
                            groups@,
                            tasks@,
                            gid,
                        ) by {
                            carry_core_stable(
                                old(groups)@[gid].unexplored_equivalent_logical_mexprs@[k],
                                groups@,
                                groups@,
                                pre_tasks,
                                tasks@,
                                gid,
                            );
                        }
                    }
                },
                Task::GroupLoop(g) => {
                    let ghost oldgs = groups@;
                    let gref = &mut groups[g];
                    let popped = gref.unexplored_equivalent_logical_mexprs.pop_front();
                    match popped {
                        Some(m) => {
                            proof {
                                lemma_total_update(oldgs, g as int, groups@[g as int]);
                            }
                            let ghost mym = m;
                            tasks.push(Task::ProcessExpr(g, m, 0));
                            proof {
                                self.restore_after_pop(
                                    memo_entries(*memo),
                                    oldgs,
                                    groups@,
                                    pre_tasks,
                                    tasks@,
                                    g,
                                );
                                assert forall|gid: int, k: int|
                                    #![trigger old(groups)@[gid].unexplored_equivalent_logical_mexprs@[k]]
                                    0 <= gid < old(groups)@.len() && 0 <= k < old(
                                        groups,
                                    )@[gid].unexplored_equivalent_logical_mexprs@.len() implies core_in_group(
                                    old(groups)@[gid].unexplored_equivalent_logical_mexprs@[k],
                                    groups@,
                                    tasks@,
                                    gid,
                                ) by {
                                    let orig = old(
                                        groups,
                                    )@[gid].unexplored_equivalent_logical_mexprs@[k];
                                    assert(core_in_group(orig, oldgs, pre_tasks, gid));
                                    let oldq = oldgs[gid].unexplored_equivalent_logical_mexprs@;
                                    if exists|k2: int|
                                        0 <= k2 < oldq.len() && mexpr_core_eq(
                                            #[trigger] oldq[k2],
                                            orig,
                                        ) {
                                        let k2 = choose|k2: int|
                                            0 <= k2 < oldq.len() && mexpr_core_eq(
                                                #[trigger] oldq[k2],
                                                orig,
                                            );
                                        if gid == g as int {
                                            if k2 == 0 {
                                                assert(mym == oldq[0]);
                                                assert(tasks@[tasks@.len() - 1]
                                                    == Task::ProcessExpr(g, mym, 0));
                                            } else {
                                                assert(groups@[gid].unexplored_equivalent_logical_mexprs@[k2
                                                    - 1] == oldq[k2]);
                                            }
                                        } else {
                                            assert(groups@[gid] == oldgs[gid]);
                                        }
                                    } else if exists|k2: int|
                                        0 <= k2 < oldgs[gid].equivalent_logical_mexprs@.len()
                                            && mexpr_core_eq(
                                            #[trigger] oldgs[gid].equivalent_logical_mexprs@[k2],
                                            orig,
                                        ) {
                                        let k2 = choose|k2: int|
                                            0 <= k2 < oldgs[gid].equivalent_logical_mexprs@.len()
                                                && mexpr_core_eq(
                                                #[trigger] oldgs[gid].equivalent_logical_mexprs@[k2],
                                                orig,
                                            );
                                        assert(groups@[gid].equivalent_logical_mexprs@
                                            == oldgs[gid].equivalent_logical_mexprs@);
                                        assert(mexpr_core_eq(
                                            groups@[gid].equivalent_logical_mexprs@[k2],
                                            orig,
                                        ));
                                    } else {
                                        let k2 = choose|k2: int|
                                            0 <= k2 < pre_tasks.len() && (
                                            match #[trigger] pre_tasks[k2] {
                                                Task::ProcessExpr(g2, mf, _) => g2 as int == gid
                                                    && mexpr_core_eq(mf, orig),
                                                _ => false,
                                            });
                                        assert(k2 < pre_tasks.len() - 1);
                                        assert(tasks@[k2] == pre_tasks[k2]);
                                    }
                                }
                            }
                        },
                        None => {
                            let gref2 = &mut groups[g];
                            gref2.set_explored(true);
                            proof {
                                lemma_total_update(oldgs, g as int, groups@[g as int]);
                                self.restore_after_finish(
                                    memo_entries(*memo),
                                    oldgs,
                                    groups@,
                                    pre_tasks,
                                    tasks@,
                                    g,
                                );
                                assert forall|gid: int, k: int|
                                    #![trigger old(groups)@[gid].unexplored_equivalent_logical_mexprs@[k]]
                                    0 <= gid < old(groups)@.len() && 0 <= k < old(
                                        groups,
                                    )@[gid].unexplored_equivalent_logical_mexprs@.len() implies core_in_group(
                                    old(groups)@[gid].unexplored_equivalent_logical_mexprs@[k],
                                    groups@,
                                    tasks@,
                                    gid,
                                ) by {
                                    if gid != g as int {
                                        assert(groups@[gid] == oldgs[gid]);
                                    }
                                    carry_core_stable(
                                        old(groups)@[gid].unexplored_equivalent_logical_mexprs@[k],
                                        oldgs,
                                        groups@,
                                        pre_tasks,
                                        tasks@,
                                        gid,
                                    );
                                }
                            }
                        },
                    }
                },
                Task::ProcessExpr(g, m, i) => {
                    let ghost m0 = m;
                    if i < m.operands.len() {
                        let child = m.operands[i];
                        let inext = i + 1;
                        tasks.push(Task::ProcessExpr(g, m, inext));
                        tasks.push(Task::ExploreGroup(child));
                        proof {
                            self.restore_after_schedule_child(
                                memo_entries(*memo),
                                groups@,
                                pre_tasks,
                                tasks@,
                                g,
                                m0,
                                i,
                                inext,
                            );
                            assert forall|gid: int, k: int|
                                #![trigger old(groups)@[gid].unexplored_equivalent_logical_mexprs@[k]]
                                0 <= gid < old(groups)@.len() && 0 <= k < old(
                                    groups,
                                )@[gid].unexplored_equivalent_logical_mexprs@.len() implies core_in_group(
                                old(groups)@[gid].unexplored_equivalent_logical_mexprs@[k],
                                groups@,
                                tasks@,
                                gid,
                            ) by {
                                let orig = old(
                                    groups,
                                )@[gid].unexplored_equivalent_logical_mexprs@[k];
                                assert(core_in_group(orig, groups@, pre_tasks, gid));
                                if exists|k2: int|
                                    0 <= k2 < pre_tasks.len() && (match #[trigger] pre_tasks[k2] {
                                        Task::ProcessExpr(g2, mf, _) => g2 as int == gid
                                            && mexpr_core_eq(mf, orig),
                                        _ => false,
                                    }) {
                                    let k2 = choose|k2: int|
                                        0 <= k2 < pre_tasks.len() && (
                                        match #[trigger] pre_tasks[k2] {
                                            Task::ProcessExpr(g2, mf, _) => g2 as int == gid
                                                && mexpr_core_eq(mf, orig),
                                            _ => false,
                                        });
                                    if k2 < pre_tasks.len() - 1 {
                                        assert(tasks@[k2] == pre_tasks[k2]);
                                    } else {
                                        assert(tasks@[pre_tasks.len() - 1] == Task::ProcessExpr(
                                            g,
                                            m0,
                                            inext,
                                        ));
                                    }
                                }
                            }
                        }
                    } else {
                        let mut m2 = m;
                        let ghost gs0 = groups@;
                        let ghost memo0 = memo_entries(*memo);
                        proof {
                            assert(frame_children_ok(pre_tasks, pre_tasks.len() - 1, groups@));
                            assert forall|j: int|
                                0 <= j < m2.operands@.len() implies groups@[
                                #[trigger] m2.operands@[j] as int
                            ].explored by {
                                assert(!(exists|k2: int|
                                    pre_tasks.len() - 1 < k2 < pre_tasks.len() && names_gid(
                                        #[trigger] pre_tasks[k2],
                                        m2.operands@[j] as int,
                                    )));
                            }
                            assert(group_members_ok(groups@, g as int));
                        }
                        let transformed = apply_join_commutativity(&m2, groups);
                        let ghost gsa = groups@;
                        let ghost memoa = memo_entries(*memo);
                        add_new_mexprs(g, transformed, memo, groups);
                        let ghost gsb = groups@;
                        let ghost memob = memo_entries(*memo);
                        proof {
                            lemma_u64_key_bound(memo_entries(*memo).dom());
                            assert(gsb =~= gsa.update(g as int, gsb[g as int]));
                            lemma_total_update(gsa, g as int, gsb[g as int]);
                            assert(groups_members_ok(gsb)) by {
                                assert forall|g2: int|
                                    0 <= g2 < gsb.len() implies #[trigger] group_members_ok(
                                    gsb,
                                    g2,
                                ) by {
                                    if g2 != g as int {
                                        assert(gsb[g2] == gsa[g2]);
                                        assert(group_members_ok(gsa, g2));
                                        lemma_members_ok_monotone(gsa, gsb, g2);
                                    } else {
                                        assert(group_members_ok(gsa, g2));
                                    }
                                }
                            }
                        }
                        let transformed2 = apply_join_associativity(&m2, memo, groups);
                        let ghost gsc = groups@;
                        let ghost memoc = memo_entries(*memo);
                        proof {
                            assert(groups_members_ok(gsc)) by {
                                assert forall|g2: int|
                                    0 <= g2 < gsc.len() implies #[trigger] group_members_ok(
                                    gsc,
                                    g2,
                                ) by {
                                    if g2 < gsb.len() {
                                        assert(gsc[g2] == gsb[g2]);
                                        assert(group_members_ok(gsb, g2));
                                        lemma_members_ok_monotone(gsb, gsc, g2);
                                    } else {
                                        assert(fresh_group_ok(gsc[g2], gsc.len()));
                                        let gg = gsc[g2];
                                        assert forall|k2: int|
                                            0 <= k2
                                                < gg.unexplored_equivalent_logical_mexprs@.len() implies ops_in_range(
                                            (
                                            #[trigger] gg.unexplored_equivalent_logical_mexprs@[k2]).operands@,
                                            gsc.len(),
                                        ) by {
                                            assert(k2 == 0);
                                        }
                                    }
                                }
                            }
                        }
                        add_new_mexprs(g, transformed2, memo, groups);
                        let ghost gsd = groups@;
                        let ghost memod = memo_entries(*memo);
                        proof {
                            lemma_u64_key_bound(memo_entries(*memo).dom());
                            assert(gsd =~= gsc.update(g as int, gsd[g as int]));
                            lemma_total_update(gsc, g as int, gsd[g as int]);
                            assert(groups_members_ok(gsd)) by {
                                assert forall|g2: int|
                                    0 <= g2 < gsd.len() implies #[trigger] group_members_ok(
                                    gsd,
                                    g2,
                                ) by {
                                    if g2 != g as int {
                                        assert(gsd[g2] == gsc[g2]);
                                        assert(group_members_ok(gsc, g2));
                                        lemma_members_ok_monotone(gsc, gsd, g2);
                                    } else {
                                        assert forall|k2: int|
                                            0 <= k2
                                                < gsd[g2].unexplored_equivalent_logical_mexprs@.len() implies ops_in_range(
                                            (
                                            #[trigger] gsd[g2].unexplored_equivalent_logical_mexprs@[k2]).operands@,
                                            gsd.len(),
                                        ) by {
                                            lemma_ops_in_range_monotone(
                                                gsd[g2].unexplored_equivalent_logical_mexprs@[k2].operands@,
                                                gsc.len(),
                                                gsd.len(),
                                            );
                                        }
                                        match gsd[g2].cheapest_logical_expression {
                                            Some(e) => {
                                                assert(group_members_ok(gsc, g2));
                                                lemma_ops_in_range_monotone(
                                                    e.operands@,
                                                    gsc.len(),
                                                    gsd.len(),
                                                );
                                            },
                                            None => {},
                                        }
                                        match gsd[g2].start_expression {
                                            Some(e) => {
                                                assert(group_members_ok(gsc, g2));
                                                lemma_ops_in_range_monotone(
                                                    e.operands@,
                                                    gsc.len(),
                                                    gsd.len(),
                                                );
                                            },
                                            None => {},
                                        }
                                        assert forall|k2: int|
                                            0 <= k2
                                                < gsd[g2].equivalent_logical_mexprs@.len() implies ops_in_range(
                                            (
                                            #[trigger] gsd[g2].equivalent_logical_mexprs@[k2]).operands@,
                                            gsd.len(),
                                        ) by {
                                            assert(group_members_ok(gsc, g2));
                                            lemma_ops_in_range_monotone(
                                                gsd[g2].equivalent_logical_mexprs@[k2].operands@,
                                                gsc.len(),
                                                gsd.len(),
                                            );
                                        }
                                    }
                                }
                            }
                            assert forall|i2: int|
                                gs0.len() <= i2 < gsd.len() implies fresh_group_ok(
                                #[trigger] gsd[i2],
                                gsd.len(),
                            ) by {
                                assert(gsd[i2] == gsc[i2]);
                                assert(fresh_group_ok(gsc[i2], gsc.len()));
                            }
                            self.restore_after_rules(
                                memo0,
                                memod,
                                gs0,
                                gsd,
                                pre_tasks,
                                g,
                            );
                        }
                        m2.update_cost_and_rowcount(groups, table);
                        let ghost oldgs = groups@;
                        let ghost m2v = m2;
                        let gref = &mut groups[g];
                        gref.equivalent_logical_mexprs.push(m2);
                        proof {
                            lemma_total_update(oldgs, g as int, groups@[g as int]);
                        }
                        tasks.push(Task::GroupLoop(g));
                        proof {
                            self.restore_after_process(
                                memo_entries(*memo),
                                oldgs,
                                groups@,
                                pre_tasks,
                                tasks@,
                                g,
                                m0,
                                i,
                                m2v,
                            );
                            assert(mexpr_core_eq(m2v, m0));
                            assert forall|gid: int, k: int|
                                #![trigger old(groups)@[gid].unexplored_equivalent_logical_mexprs@[k]]
                                0 <= gid < old(groups)@.len() && 0 <= k < old(
                                    groups,
                                )@[gid].unexplored_equivalent_logical_mexprs@.len() implies core_in_group(
                                old(groups)@[gid].unexplored_equivalent_logical_mexprs@[k],
                                groups@,
                                tasks@,
                                gid,
                            ) by {
                                let orig = old(
                                    groups,
                                )@[gid].unexplored_equivalent_logical_mexprs@[k];
                                assert(core_in_group(orig, gs0, pre_tasks, gid));
                                if gid != g as int {
                                    assert(gsb[gid] == gs0[gid]);
                                    assert(gsc[gid] == gsb[gid]);
                                    assert(gsd[gid] == gsc[gid]);
                                    assert(groups@[gid] == gsd[gid]);
                                    carry_core_stable(
                                        orig,
                                        gs0,
                                        groups@,
                                        pre_tasks,
                                        tasks@,
                                        gid,
                                    );
                                } else {
                                    let q0 = gs0[gid].unexplored_equivalent_logical_mexprs@;
                                    let e0 = gs0[gid].equivalent_logical_mexprs@;
                                    if exists|k2: int|
                                        0 <= k2 < q0.len() && mexpr_core_eq(
                                            #[trigger] q0[k2],
                                            orig,
                                        ) {
                                        let k2 = choose|k2: int|
                                            0 <= k2 < q0.len() && mexpr_core_eq(
                                                #[trigger] q0[k2],
                                                orig,
                                            );
                                        assert(gsb[gid].unexplored_equivalent_logical_mexprs@[k2]
                                            == q0[k2]);
                                        assert(gsc[gid].unexplored_equivalent_logical_mexprs@[k2]
                                            == q0[k2]);
                                        assert(gsd[gid].unexplored_equivalent_logical_mexprs@[k2]
                                            == q0[k2]);
                                        assert(groups@[gid].unexplored_equivalent_logical_mexprs@[k2]
                                            == q0[k2]);
                                    } else if exists|k2: int|
                                        0 <= k2 < e0.len() && mexpr_core_eq(
                                            #[trigger] e0[k2],
                                            orig,
                                        ) {
                                        let k2 = choose|k2: int|
                                            0 <= k2 < e0.len() && mexpr_core_eq(
                                                #[trigger] e0[k2],
                                                orig,
                                            );
                                        assert(gsd[gid].equivalent_logical_mexprs@ == e0);
                                        assert(groups@[gid].equivalent_logical_mexprs@[k2]
                                            == e0[k2]);
                                    } else {
                                        let k2 = choose|k2: int|
                                            0 <= k2 < pre_tasks.len() && (
                                            match #[trigger] pre_tasks[k2] {
                                                Task::ProcessExpr(g2, mf, _) => g2 as int == gid
                                                    && mexpr_core_eq(mf, orig),
                                                _ => false,
                                            });
                                        if k2 < pre_tasks.len() - 1 {
                                            assert(tasks@[k2] == pre_tasks[k2]);
                                        } else {
                                            assert(pre_tasks[k2] == Task::ProcessExpr(g, m0, i));
                                            assert(mexpr_core_eq(m0, orig));
                                            let last = groups@[gid].equivalent_logical_mexprs@.len()
                                                - 1;
                                            assert(groups@[gid].equivalent_logical_mexprs@[last]
                                                == m2v);
                                            assert(mexpr_core_eq(m2v, orig));
                                        }
                                    }
                                }
                            }
                            assert forall|gid: int|
                                0 <= gid < old(groups)@.len() implies eq_prefix(
                                (#[trigger] old(groups)@[gid]).equivalent_logical_mexprs@,
                                groups@[gid].equivalent_logical_mexprs@,
                            ) by {
                                if gid != g as int {
                                    assert(gsb[gid] == gs0[gid]);
                                    assert(gsc[gid] == gsb[gid]);
                                    assert(gsd[gid] == gsc[gid]);
                                    assert(groups@[gid] == gsd[gid]);
                                } else {
                                    assert(gsd[gid].equivalent_logical_mexprs@
                                        == gs0[gid].equivalent_logical_mexprs@);
                                    assert(groups@[gid].equivalent_logical_mexprs@
                                        == gsd[gid].equivalent_logical_mexprs@.push(m2v));
                                }
                            }
                        }
                    }
                },
            }
        }
        proof {
            assert forall|gid: int|
                0 <= gid < groups@.len() && (#[trigger] groups@[gid]).explored implies group_done(
                groups@,
                gid,
            ) by {
                assert(!pending(tasks@, gid));
            }
        }
    }

    /// Invariant restoration after entering a group: either it was already
    /// explored and the task vanishes, or a draining task takes its place.
    proof fn restore_after_explore_task(
        &self,
        memo: Map<u64, usize>,
        groups: Seq<Group>,
        pre: Seq<Task>,
        ts: Seq<Task>,
        g: usize,
    )
        requires
            explore_inv(memo, groups, pre),
            pre.len() > 0,
            pre.last() == Task::ExploreGroup(g),
            (g as int) < groups.len(),
            if groups[g as int].explored {
                ts == pre.drop_last()
            } else {
                ts == pre.drop_last().push(Task::GroupLoop(g))
            },
        ensures
            explore_inv(memo, groups, ts),
            stack_weight(ts) < stack_weight(pre),
            forall|gid: int, k: int|
                0 <= k < pre.len() && #[trigger] names_gid(pre[k], gid) && gid != g as int ==> exists|k2: int|
                    0 <= k2 < ts.len() && names_gid(#[trigger] ts[k2], gid),
            groups[g as int].explored || exists|k: int|
                0 <= k < ts.len() && names_gid(#[trigger] ts[k], g as int),
    {
        let rest = pre.drop_last();
        if groups[g as int].explored {
            assert(stack_weight(ts) + task_weight(pre.last()) == stack_weight(pre));
        } else {
            assert(ts.drop_last() =~= rest);
            assert(stack_weight(ts) == stack_weight(rest) + 2);
            assert(stack_weight(pre) == stack_weight(rest) + 3);
        }
        assert forall|k: int| 0 <= k < ts.len() implies task_basic_ok(#[trigger] ts[k], groups) by {
            if k < rest.len() {
                assert(ts[k] == pre[k]);
                assert(task_basic_ok(pre[k], groups));
            }
        }
        assert forall|k: int| 0 <= k < ts.len() implies frame_children_ok(ts, k, groups) by {
            if k < rest.len() {
                assert(ts[k] == pre[k]);
                assert(frame_children_ok(pre, k, groups));
                carry_frame_children(pre, ts, k, groups);
            }
        }
        assert forall|gid: int|
            0 <= gid < groups.len() && (#[trigger] groups[gid]).explored implies group_done(
            groups,
            gid,
        ) || pending(ts, gid) by {
            if !group_done(groups, gid) {
                let k = choose|k: int| 0 <= k < pre.len() && drains(#[trigger] pre[k], gid);
                assert(k < rest.len());
                assert(ts[k] == pre[k]);
            }
        }
        assert forall|gid: int, k: int|
            0 <= k < pre.len() && #[trigger] names_gid(pre[k], gid) && gid != g as int implies exists|k2: int|
            0 <= k2 < ts.len() && names_gid(#[trigger] ts[k2], gid) by {
            assert(k < rest.len());
            assert(ts[k] == pre[k]);
        }
        if !groups[g as int].explored {
            assert(names_gid(ts[ts.len() - 1], g as int));
        }
    }

    /// Invariant restoration after popping one queued expression: the queue
    /// shrank, and a processing task for the popped expression takes the
    /// drainer's place.
    proof fn restore_after_pop(
        &self,
        memo: Map<u64, usize>,
        oldgs: Seq<Group>,
        groups: Seq<Group>,
        pre: Seq<Task>,
        ts: Seq<Task>,
        g: usize,
    )
        requires
            explore_inv(memo, oldgs, pre),
            pre.len() > 0,
            pre.last() == Task::GroupLoop(g),
            (g as int) < oldgs.len(),
            oldgs[g as int].unexplored_equivalent_logical_mexprs@.len() > 0,
            groups.len() == oldgs.len(),
            forall|i: int| 0 <= i < oldgs.len() && i != g as int ==> groups[i] == oldgs[i],
            groups[g as int].unexplored_equivalent_logical_mexprs@
                == oldgs[g as int].unexplored_equivalent_logical_mexprs@.drop_first(),
            groups[g as int].explored == oldgs[g as int].explored,
            groups[g as int].equivalent_logical_mexprs == oldgs[g as int].equivalent_logical_mexprs,
            groups[g as int].cheapest_logical_expression == oldgs[g as int].cheapest_logical_expression,
            groups[g as int].min_cost == oldgs[g as int].min_cost,
            groups[g as int].start_expression == oldgs[g as int].start_expression,
            groups[g as int].source_node == oldgs[g as int].source_node,
            ts == pre.drop_last().push(
                Task::ProcessExpr(
                    g,
                    oldgs[g as int].unexplored_equivalent_logical_mexprs@[0],
                    0,
                ),
            ),
        ensures
            explore_inv(memo, groups, ts),
            total_unexplored(groups) < total_unexplored(oldgs),
            forall|gid: int, k: int|
                0 <= k < pre.len() && #[trigger] names_gid(pre[k], gid) ==> exists|k2: int|
                    0 <= k2 < ts.len() && names_gid(#[trigger] ts[k2], gid),
            forall|i: int| 0 <= i < oldgs.len() && oldgs[i].explored ==> groups[i].explored,
    {
        let rest = pre.drop_last();
        let m = oldgs[g as int].unexplored_equivalent_logical_mexprs@[0];
        assert(groups =~= oldgs.update(g as int, groups[g as int]));
        lemma_total_update(oldgs, g as int, groups[g as int]);
        assert(memo_wf(memo, groups)) by {
            assert(group_hash_of(groups[g as int]) == group_hash_of(oldgs[g as int]));
            assert forall|gid2: int| 0 <= gid2 < groups.len() implies memo.dom().contains(
                group_hash_of(#[trigger] groups[gid2]),
            ) && memo[group_hash_of(groups[gid2])] as int == gid2 by {
                if gid2 != g as int {
                    assert(groups[gid2] == oldgs[gid2]);
                }
            }
        }
        assert(groups_members_ok(groups)) by {
            assert forall|gid2: int| 0 <= gid2 < groups.len() implies #[trigger] group_members_ok(
                groups,
                gid2,
            ) by {
                assert(group_members_ok(oldgs, gid2));
                if gid2 == g as int {
                    assert forall|k: int|
                        0 <= k < groups[g as int].unexplored_equivalent_logical_mexprs@.len() implies ops_in_range(
                        (#[trigger] groups[g as int].unexplored_equivalent_logical_mexprs@[k]).operands@,
                        groups.len(),
                    ) by {
                        assert(groups[g as int].unexplored_equivalent_logical_mexprs@[k]
                            == oldgs[g as int].unexplored_equivalent_logical_mexprs@[k + 1]);
                    }
                } else {
                    assert(groups[gid2] == oldgs[gid2]);
                }
            }
        }
        assert(equiv_members_ok(groups)) by {
            assert forall|gid2: int, k: int|
                0 <= gid2 < groups.len() && 0 <= k
                    < groups[gid2].equivalent_logical_mexprs@.len() implies equiv_member_ok(
                groups,
                #[trigger] groups[gid2].equivalent_logical_mexprs@[k],
            ) by {
                assert(groups[gid2].equivalent_logical_mexprs@
                    == oldgs[gid2].equivalent_logical_mexprs@);
                assert(equiv_member_ok(oldgs, oldgs[gid2].equivalent_logical_mexprs@[k]));
                assert forall|j: int|
                    0 <= j < groups[gid2].equivalent_logical_mexprs@[k].operands@.len() implies groups[
                    #[trigger] groups[gid2].equivalent_logical_mexprs@[k].operands@[j] as int
                ].explored by {
                    let o = groups[gid2].equivalent_logical_mexprs@[k].operands@[j] as int;
                    assert(oldgs[o].explored);
                    assert(groups[o].explored == oldgs[o].explored);
                }
            }
        }
        assert(cheapest_dominated(groups)) by {
            assert forall|gid2: int|
                0 <= gid2 < groups.len() implies match (
            #[trigger] groups[gid2]).cheapest_logical_expression {
                Some(p) => exists|i: int|
                    0 <= i < groups[gid2].equivalent_logical_mexprs@.len() && !cost_lt(
                        p.cost,
                        groups[gid2].equivalent_logical_mexprs@[i].cost,
                    ),
                None => true,
            } by {
                assert(groups[gid2].cheapest_logical_expression
                    == oldgs[gid2].cheapest_logical_expression);
                assert(groups[gid2].equivalent_logical_mexprs@
                    == oldgs[gid2].equivalent_logical_mexprs@);
            }
        }
        assert forall|k: int| 0 <= k < ts.len() implies task_basic_ok(#[trigger] ts[k], groups) by {
            if k < rest.len() {
                assert(ts[k] == pre[k]);
                assert(task_basic_ok(pre[k], oldgs));
            } else {
                assert(ts[k] == Task::ProcessExpr(g, m, 0));
                assert(group_members_ok(oldgs, g as int));
            }
        }
        assert forall|k: int| 0 <= k < ts.len() implies frame_children_ok(ts, k, groups) by {
            if k < rest.len() {
                assert(ts[k] == pre[k]);
                assert(frame_children_ok(pre, k, oldgs));
                carry_frame_children_state(pre, ts, k, oldgs, groups);
            }
        }
        assert forall|gid: int|
            0 <= gid < groups.len() && (#[trigger] groups[gid]).explored implies group_done(
            groups,
            gid,
        ) || pending(ts, gid) by {
            if !group_done(groups, gid) {
                if gid == g as int {
                    assert(ts[ts.len() - 1] == Task::ProcessExpr(g, m, 0));
                    assert(pending(ts, gid));
                } else {
                    assert(groups[gid] == oldgs[gid]);
                    if !group_done(oldgs, gid) {
                        let k = choose|k: int|
                            0 <= k < pre.len() && drains(#[trigger] pre[k], gid);
                        assert(k < rest.len());
                        assert(ts[k] == pre[k]);
                        assert(pending(ts, gid));
                    } else {
                        assert(groups[gid].equivalent_logical_mexprs@
                            == oldgs[gid].equivalent_logical_mexprs@);
                        assert(group_done(groups, gid));
                    }
                }
            }
        }
        assert forall|gid: int, k: int|
            0 <= k < pre.len() && #[trigger] names_gid(pre[k], gid) implies exists|k2: int|
            0 <= k2 < ts.len() && names_gid(#[trigger] ts[k2], gid) by {
            if k < rest.len() {
                assert(ts[k] == pre[k]);
            } else {
                assert(gid == g as int);
                assert(names_gid(ts[ts.len() - 1], g as int));
            }
        }
    }
}

/// A frame's children stay justified when the stack loses its top frame and
/// gains replacements that name the same groups the lost frame named.
proof fn carry_frame_children(pre: Seq<Task>, ts: Seq<Task>, k: int, groups: Seq<Group>)
    requires
        0 <= k < pre.len() - 1,
        k < ts.len(),
        ts[k] == pre[k],
        frame_children_ok(pre, k, groups),
        forall|j: int| 0 <= j < pre.len() - 1 && j < ts.len() ==> ts[j] == pre[j],
        forall|gid: int|
            names_gid(pre[pre.len() - 1], gid) ==> groups[gid].explored || exists|k2: int|
                k < k2 < ts.len() && names_gid(#[trigger] ts[k2], gid),
        ts.len() >= pre.len() - 1,
    ensures
        frame_children_ok(ts, k, groups),
{
    match ts[k] {
        Task::ProcessExpr(_, m, i) => {
            assert forall|j: int|
                0 <= j < i && (#[trigger] m.operands@[j] as int) < groups.len() implies groups[
                m.operands@[j] as int
            ].explored || exists|k2: int|
                k < k2 < ts.len() && names_gid(#[trigger] ts[k2], m.operands@[j] as int) by {
                let o = m.operands@[j] as int;
                if !groups[o].explored {
                    assert(exists|k2: int|
                        k < k2 < pre.len() && names_gid(#[trigger] pre[k2], o));
                    let k2 = choose|k2: int|
                        k < k2 < pre.len() && names_gid(#[trigger] pre[k2], o);
                    if k2 < pre.len() - 1 {
                        assert(ts[k2] == pre[k2]);
                        assert(names_gid(ts[k2], o));
                    } else {
                        assert(names_gid(pre[pre.len() - 1], o));
                    }
                }
            }
        },
        _ => {},
    }
}

/// The same carrying argument, across a change of arena that only flips
/// explored flags upward or leaves groups alone.
proof fn carry_frame_children_state(
    pre: Seq<Task>,
    ts: Seq<Task>,
    k: int,
    oldgs: Seq<Group>,
    groups: Seq<Group>,
)
    requires
        0 <= k < pre.len() - 1,
        k < ts.len(),
        ts[k] == pre[k],
        frame_children_ok(pre, k, oldgs),
        task_basic_ok(pre[k], oldgs),
        oldgs.len() <= groups.len(),
        forall|i: int| 0 <= i < oldgs.len() && oldgs[i].explored ==> groups[i].explored,
        forall|j: int| 0 <= j < pre.len() - 1 && j < ts.len() ==> ts[j] == pre[j],
        forall|gid: int|
            names_gid(pre[pre.len() - 1], gid) ==> groups[gid].explored || exists|k2: int|
                k < k2 < ts.len() && names_gid(#[trigger] ts[k2], gid),
        ts.len() >= pre.len() - 1,
    ensures
        frame_children_ok(ts, k, groups),
{
    match ts[k] {
        Task::ProcessExpr(_, m, i) => {
            assert forall|j: int|
                0 <= j < i && (#[trigger] m.operands@[j] as int) < groups.len() implies groups[
                m.operands@[j] as int
            ].explored || exists|k2: int|
                k < k2 < ts.len() && names_gid(#[trigger] ts[k2], m.operands@[j] as int) by {
                let o = m.operands@[j] as int;
                if !groups[o].explored {
                    assert(o < oldgs.len());
                    assert(!oldgs[o].explored);
                    assert(exists|k2: int|
                        k < k2 < pre.len() && names_gid(#[trigger] pre[k2], o));
                    let k2 = choose|k2: int|
                        k < k2 < pre.len() && names_gid(#[trigger] pre[k2], o);
                    if k2 < pre.len() - 1 {
                        assert(ts[k2] == pre[k2]);
                        assert(names_gid(ts[k2], o));
                    } else {
                        assert(names_gid(pre[pre.len() - 1], o));
                    }
                }
            }
        },
        _ => {},
    }
}


impl RuleMatcher {
    /// Invariant restoration after a group's queue drains: the group is
    /// marked explored, its cheapest member and cached minimum recomputed.
    proof fn restore_after_finish(
        &self,
        memo: Map<u64, usize>,
        oldgs: Seq<Group>,
        groups: Seq<Group>,
        pre: Seq<Task>,
        ts: Seq<Task>,
        g: usize,
    )
        requires
            explore_inv(memo, oldgs, pre),
            pre.len() > 0,
            pre.last() == Task::GroupLoop(g),
            (g as int) < oldgs.len(),
            oldgs[g as int].unexplored_equivalent_logical_mexprs@.len() == 0,
            groups.len() == oldgs.len(),
            forall|i: int| 0 <= i < oldgs.len() && i != g as int ==> groups[i] == oldgs[i],
            groups[g as int].explored,
            opt_same_mexpr(
                groups[g as int].cheapest_logical_expression,
                min_from(
                    oldgs[g as int].cheapest_logical_expression,
                    oldgs[g as int].equivalent_logical_mexprs@,
                ),
            ),
            groups[g as int].min_cost == opt_cost(
                min_from(
                    oldgs[g as int].cheapest_logical_expression,
                    oldgs[g as int].equivalent_logical_mexprs@,
                ),
            ),
            groups[g as int].equivalent_logical_mexprs == oldgs[g as int].equivalent_logical_mexprs,
            groups[g as int].unexplored_equivalent_logical_mexprs@
                == oldgs[g as int].unexplored_equivalent_logical_mexprs@,
            groups[g as int].start_expression == oldgs[g as int].start_expression,
            groups[g as int].source_node == oldgs[g as int].source_node,
            ts == pre.drop_last(),
        ensures
            explore_inv(memo, groups, ts),
            stack_weight(ts) < stack_weight(pre),
            total_unexplored(groups) == total_unexplored(oldgs),
            forall|i: int| 0 <= i < oldgs.len() && oldgs[i].explored ==> groups[i].explored,
            forall|gid: int, k: int|
                0 <= k < pre.len() && #[trigger] names_gid(pre[k], gid) && gid != g as int ==> exists|k2: int|
                    0 <= k2 < ts.len() && names_gid(#[trigger] ts[k2], gid),
    {
        let rest = ts;
        let eq = oldgs[g as int].equivalent_logical_mexprs@;
        let seed = oldgs[g as int].cheapest_logical_expression;
        let winner = min_from(seed, eq);
        lemma_min_from_cases(seed, eq);
        assert(stack_weight(ts) + task_weight(pre.last()) == stack_weight(pre));
        assert forall|i: int| 0 <= i < groups.len() implies groups[i].explored == oldgs[i].explored
            || (i == g && groups[i].explored) by {}
        assert forall|i: int|
            0 <= i < oldgs.len() implies (
        #[trigger] oldgs[i]).unexplored_equivalent_logical_mexprs@.len() == (
        #[trigger] groups[i]).unexplored_equivalent_logical_mexprs@.len() by {
            if i != g as int {
                assert(groups[i] == oldgs[i]);
            }
        }
        assert(total_unexplored(groups) == total_unexplored(oldgs)) by {
            lemma_total_eq(oldgs, groups);
        }
        assert(memo_wf(memo, groups)) by {
            assert(group_hash_of(groups[g as int]) == group_hash_of(oldgs[g as int]));
            assert forall|gid2: int| 0 <= gid2 < groups.len() implies memo.dom().contains(
                group_hash_of(#[trigger] groups[gid2]),
            ) && memo[group_hash_of(groups[gid2])] as int == gid2 by {
                if gid2 != g as int {
                    assert(groups[gid2] == oldgs[gid2]);
                }
            }
        }
        assert(groups_members_ok(groups)) by {
            assert forall|gid2: int| 0 <= gid2 < groups.len() implies #[trigger] group_members_ok(
                groups,
                gid2,
            ) by {
                assert(group_members_ok(oldgs, gid2));
                if gid2 == g as int {
                    match groups[g as int].cheapest_logical_expression {
                        Some(p) => {
                            match winner {
                                Some(w) => {
                                    assert(same_mexpr(p, w));
                                    if winner == seed {
                                        assert(ops_in_range(w.operands@, groups.len()));
                                    } else {
                                        let i = choose|i: int|
                                            0 <= i < eq.len() && winner == Some(eq[i]);
                                        assert(ops_in_range(eq[i].operands@, oldgs.len()));
                                    }
                                },
                                None => {},
                            }
                        },
                        None => {},
                    }
                }
            }
        }
        assert(equiv_members_ok(groups)) by {
            assert forall|gid2: int, k: int|
                0 <= gid2 < groups.len() && 0 <= k
                    < groups[gid2].equivalent_logical_mexprs@.len() implies equiv_member_ok(
                groups,
                #[trigger] groups[gid2].equivalent_logical_mexprs@[k],
            ) by {
                assert(groups[gid2].equivalent_logical_mexprs@
                    == oldgs[gid2].equivalent_logical_mexprs@);
                assert(equiv_member_ok(oldgs, oldgs[gid2].equivalent_logical_mexprs@[k]));
                let mm = groups[gid2].equivalent_logical_mexprs@[k];
                assert forall|j: int| 0 <= j < mm.operands@.len() implies groups[
                    #[trigger] mm.operands@[j] as int
                ].explored by {
                    let o = mm.operands@[j] as int;
                    assert(oldgs[o].explored);
                }
            }
        }
        assert(cheapest_dominated(groups)) by {
            assert forall|gid2: int|
                0 <= gid2 < groups.len() implies match (
            #[trigger] groups[gid2]).cheapest_logical_expression {
                Some(p) => exists|i: int|
                    0 <= i < groups[gid2].equivalent_logical_mexprs@.len() && !cost_lt(
                        p.cost,
                        groups[gid2].equivalent_logical_mexprs@[i].cost,
                    ),
                None => true,
            } by {
                if gid2 != g as int {
                    assert(groups[gid2] == oldgs[gid2]);
                } else {
                    match groups[g as int].cheapest_logical_expression {
                        Some(p) => {
                            let w = match winner {
                                Some(w) => w,
                                None => p,
                            };
                            assert(same_mexpr(p, w));
                            if winner == seed {
                                let i = choose|i: int|
                                    0 <= i < eq.len() && !cost_lt(
                                        oldgs[g as int].cheapest_logical_expression->Some_0.cost,
                                        eq[i].cost,
                                    );
                                assert(!cost_lt(p.cost, eq[i].cost));
                            } else {
                                let i = choose|i: int| 0 <= i < eq.len() && winner == Some(eq[i]);
                                assert(!cost_lt(p.cost, eq[i].cost));
                            }
                        },
                        None => {},
                    }
                }
            }
        }
        assert forall|k: int| 0 <= k < ts.len() implies task_basic_ok(#[trigger] ts[k], groups) by {
            assert(ts[k] == pre[k]);
            assert(task_basic_ok(pre[k], oldgs));
        }
        assert forall|k: int| 0 <= k < ts.len() implies frame_children_ok(ts, k, groups) by {
            assert(ts[k] == pre[k]);
            assert(frame_children_ok(pre, k, oldgs));
            carry_frame_children_state(pre, ts, k, oldgs, groups);
        }
        assert(group_done(groups, g as int)) by {
            match seed {
                Some(p) => {
                    let i = choose|i: int| 0 <= i < eq.len() && !cost_lt(p.cost, eq[i].cost);
                    lemma_min_from_cost(seed, eq);
                },
                None => {
                    lemma_min_from_cost(seed, eq);
                },
            }
        }
        assert forall|gid: int|
            0 <= gid < groups.len() && (#[trigger] groups[gid]).explored implies group_done(
            groups,
            gid,
        ) || pending(ts, gid) by {
            if gid == g as int {
                assert(group_done(groups, g as int));
            } else {
                assert(groups[gid] == oldgs[gid]);
                if group_done(oldgs, gid) {
                    assert(group_done(groups, gid));
                } else {
                    let k = choose|k: int| 0 <= k < pre.len() && drains(#[trigger] pre[k], gid);
                    assert(k < ts.len());
                    assert(ts[k] == pre[k]);
                    assert(pending(ts, gid));
                }
            }
        }
        assert forall|gid: int, k: int|
            0 <= k < pre.len() && #[trigger] names_gid(pre[k], gid) && gid != g as int implies exists|k2: int|
            0 <= k2 < ts.len() && names_gid(#[trigger] ts[k2], gid) by {
            assert(k < ts.len());
            assert(ts[k] == pre[k]);
        }
    }

    /// Invariant restoration after scheduling the next child exploration.
    proof fn restore_after_schedule_child(
        &self,
        memo: Map<u64, usize>,
        groups: Seq<Group>,
        pre: Seq<Task>,
        ts: Seq<Task>,
        g: usize,
        m: MExpr,
        i: usize,
        inext: usize,
    )
        requires
            explore_inv(memo, groups, pre),
            pre.len() > 0,
            pre.last() == Task::ProcessExpr(g, m, i),
            (g as int) < groups.len(),
            (i as int) < m.operands@.len(),
            inext as int == i as int + 1,
            ops_in_range(m.operands@, groups.len()),
            ts == pre.drop_last().push(Task::ProcessExpr(g, m, inext)).push(
                Task::ExploreGroup(m.operands@[i as int]),
            ),
        ensures
            explore_inv(memo, groups, ts),
            stack_weight(ts) < stack_weight(pre),
            forall|gid: int, k: int|
                0 <= k < pre.len() && #[trigger] names_gid(pre[k], gid) ==> exists|k2: int|
                    0 <= k2 < ts.len() && names_gid(#[trigger] ts[k2], gid),
    {
        let rest = pre.drop_last();
        let mid = rest.push(Task::ProcessExpr(g, m, inext));
        assert(ts.drop_last() =~= mid);
        assert(mid.drop_last() =~= rest);
        assert(task_weight(pre.last()) == 4 * (m.operands@.len() - i) + 3);
        assert(stack_weight(pre) == stack_weight(rest) + task_weight(pre.last()));
        assert(task_weight(mid.last()) == 4 * (m.operands@.len() - i - 1) + 3);
        assert(task_weight(ts.last()) == 3);
        assert(stack_weight(mid) == stack_weight(mid.drop_last()) + task_weight(mid.last()));
        assert(stack_weight(ts) == stack_weight(ts.drop_last()) + task_weight(ts.last()));
        assert forall|k: int| 0 <= k < ts.len() implies task_basic_ok(#[trigger] ts[k], groups) by {
            if k < rest.len() {
                assert(ts[k] == pre[k]);
                assert(task_basic_ok(pre[k], groups));
            } else if k == rest.len() {
                assert(ts[k] == Task::ProcessExpr(g, m, inext));
            } else {
                assert(ts[k] == Task::ExploreGroup(m.operands@[i as int]));
            }
        }
        assert(frame_children_ok(pre, pre.len() - 1, groups));
        assert forall|j: int|
            0 <= j < i as int implies groups[#[trigger] m.operands@[j] as int].explored by {
            assert(!(exists|k2: int|
                pre.len() - 1 < k2 < pre.len() && names_gid(#[trigger] pre[k2], m.operands@[j] as int)));
        }
        assert forall|k: int| 0 <= k < ts.len() implies frame_children_ok(ts, k, groups) by {
            if k < rest.len() {
                assert(ts[k] == pre[k]);
                assert(frame_children_ok(pre, k, groups));
                carry_frame_children(pre, ts, k, groups);
            } else if k == rest.len() {
                assert forall|j: int|
                    0 <= j < i as int + 1 && (#[trigger] m.operands@[j] as int)
                        < groups.len() implies groups[m.operands@[j] as int].explored || exists|k2: int|
                    k < k2 < ts.len() && names_gid(#[trigger] ts[k2], m.operands@[j] as int) by {
                    if j < i as int {
                        assert(groups[m.operands@[j] as int].explored);
                    } else {
                        assert(names_gid(ts[ts.len() - 1], m.operands@[i as int] as int));
                    }
                }
            }
        }
        assert forall|gid: int|
            0 <= gid < groups.len() && (#[trigger] groups[gid]).explored implies group_done(
            groups,
            gid,
        ) || pending(ts, gid) by {
            if !group_done(groups, gid) {
                let k = choose|k: int| 0 <= k < pre.len() && drains(#[trigger] pre[k], gid);
                if k < rest.len() {
                    assert(ts[k] == pre[k]);
                    assert(pending(ts, gid));
                } else {
                    assert(gid == g as int);
                    assert(drains(ts[rest.len() as int], gid));
                    assert(pending(ts, gid));
                }
            }
        }
        assert forall|gid: int, k: int|
            0 <= k < pre.len() && #[trigger] names_gid(pre[k], gid) implies exists|k2: int|
            0 <= k2 < ts.len() && names_gid(#[trigger] ts[k2], gid) by {
            if k < rest.len() {
                assert(ts[k] == pre[k]);
            } else {
                assert(gid == g as int);
                assert(names_gid(ts[rest.len() as int], gid));
            }
        }
    }

    /// Invariant restoration after one expression finishes processing: its
    /// cost is computed, it joins the explored members, and a drainer returns
    /// to its group.
    proof fn restore_after_process(
        &self,
        memo: Map<u64, usize>,
        oldgs: Seq<Group>,
        groups: Seq<Group>,
        pre: Seq<Task>,
        ts: Seq<Task>,
        g: usize,
        m0: MExpr,
        m0i: usize,
        m2: MExpr,
    )
        requires
            explore_inv(memo, oldgs, pre),
            pre.len() > 0,
            pre.last() == Task::ProcessExpr(g, m0, m0i),
            (g as int) < oldgs.len(),
            m0i as int == m0.operands@.len(),
            m2.cost is Some,
            m2.operands@ == m0.operands@,
            ops_in_range(m2.operands@, oldgs.len()),
            forall|j: int|
                0 <= j < m2.operands@.len() ==> oldgs[#[trigger] m2.operands@[j] as int].explored,
            groups.len() == oldgs.len(),
            forall|i: int| 0 <= i < oldgs.len() && i != g as int ==> groups[i] == oldgs[i],
            groups[g as int].equivalent_logical_mexprs@ == oldgs[g as int].equivalent_logical_mexprs@.push(m2),
            groups[g as int].unexplored_equivalent_logical_mexprs
                == oldgs[g as int].unexplored_equivalent_logical_mexprs,
            groups[g as int].explored == oldgs[g as int].explored,
            groups[g as int].cheapest_logical_expression == oldgs[g as int].cheapest_logical_expression,
            groups[g as int].min_cost == oldgs[g as int].min_cost,
            groups[g as int].start_expression == oldgs[g as int].start_expression,
            groups[g as int].source_node == oldgs[g as int].source_node,
            ts == pre.drop_last().push(Task::GroupLoop(g)),
        ensures
            explore_inv(memo, groups, ts),
            stack_weight(ts) < stack_weight(pre),
            total_unexplored(groups) == total_unexplored(oldgs),
            forall|i: int| 0 <= i < oldgs.len() && oldgs[i].explored ==> groups[i].explored,
            forall|gid: int, k: int|
                0 <= k < pre.len() && #[trigger] names_gid(pre[k], gid) ==> exists|k2: int|
                    0 <= k2 < ts.len() && names_gid(#[trigger] ts[k2], gid),
    {
        let rest = pre.drop_last();
        assert(ts.drop_last() =~= rest);
        assert(stack_weight(pre) == stack_weight(rest) + 3);
        assert(stack_weight(ts) == stack_weight(rest) + 2);
        assert(total_unexplored(groups) == total_unexplored(oldgs)) by {
            lemma_total_eq(oldgs, groups);
        }
        assert(memo_wf(memo, groups)) by {
            assert(group_hash_of(groups[g as int]) == group_hash_of(oldgs[g as int]));
            assert forall|gid2: int| 0 <= gid2 < groups.len() implies memo.dom().contains(
                group_hash_of(#[trigger] groups[gid2]),
            ) && memo[group_hash_of(groups[gid2])] as int == gid2 by {
                if gid2 != g as int {
                    assert(groups[gid2] == oldgs[gid2]);
                }
            }
        }
        assert(groups_members_ok(groups)) by {
            assert forall|gid2: int| 0 <= gid2 < groups.len() implies #[trigger] group_members_ok(
                groups,
                gid2,
            ) by {
                assert(group_members_ok(oldgs, gid2));
                if gid2 == g {
                    assert forall|k: int|
                        0 <= k < groups[g as int].equivalent_logical_mexprs@.len() implies ops_in_range(
                        (#[trigger] groups[g as int].equivalent_logical_mexprs@[k]).operands@,
                        groups.len(),
                    ) by {
                        if k < oldgs[g as int].equivalent_logical_mexprs@.len() {
                            assert(groups[g as int].equivalent_logical_mexprs@[k]
                                == oldgs[g as int].equivalent_logical_mexprs@[k]);
                        } else {
                            assert(groups[g as int].equivalent_logical_mexprs@[k] == m2);
                        }
                    }
                }
            }
        }
        assert(equiv_members_ok(groups)) by {
            assert forall|gid2: int, k: int|
                0 <= gid2 < groups.len() && 0 <= k
                    < groups[gid2].equivalent_logical_mexprs@.len() implies equiv_member_ok(
                groups,
                #[trigger] groups[gid2].equivalent_logical_mexprs@[k],
            ) by {
                let mm = groups[gid2].equivalent_logical_mexprs@[k];
                if gid2 == g as int && k == oldgs[g as int].equivalent_logical_mexprs@.len() {
                    assert(mm == m2);
                    assert forall|j: int| 0 <= j < mm.operands@.len() implies groups[
                        #[trigger] mm.operands@[j] as int
                    ].explored by {
                        let o = mm.operands@[j] as int;
                        assert(oldgs[o].explored);
                    }
                } else {
                    assert(mm == oldgs[gid2].equivalent_logical_mexprs@[k]);
                    assert(equiv_member_ok(oldgs, mm));
                    assert forall|j: int| 0 <= j < mm.operands@.len() implies groups[
                        #[trigger] mm.operands@[j] as int
                    ].explored by {
                        let o = mm.operands@[j] as int;
                        assert(oldgs[o].explored);
                    }
                }
            }
        }
        assert(cheapest_dominated(groups)) by {
            assert forall|gid2: int|
                0 <= gid2 < groups.len() implies match (
            #[trigger] groups[gid2]).cheapest_logical_expression {
                Some(p) => exists|i: int|
                    0 <= i < groups[gid2].equivalent_logical_mexprs@.len() && !cost_lt(
                        p.cost,
                        groups[gid2].equivalent_logical_mexprs@[i].cost,
                    ),
                None => true,
            } by {
                if gid2 != g as int {
                    assert(groups[gid2] == oldgs[gid2]);
                } else {
                    match oldgs[g as int].cheapest_logical_expression {
                        Some(p) => {
                            let i = choose|i: int|
                                0 <= i < oldgs[g as int].equivalent_logical_mexprs@.len() && !cost_lt(
                                    p.cost,
                                    oldgs[g as int].equivalent_logical_mexprs@[i].cost,
                                );
                            assert(groups[g as int].equivalent_logical_mexprs@[i]
                                == oldgs[g as int].equivalent_logical_mexprs@[i]);
                        },
                        None => {},
                    }
                }
            }
        }
        assert forall|k: int| 0 <= k < ts.len() implies task_basic_ok(#[trigger] ts[k], groups) by {
            if k < rest.len() {
                assert(ts[k] == pre[k]);
                assert(task_basic_ok(pre[k], oldgs));
            } else {
                assert(ts[k] == Task::GroupLoop(g));
            }
        }
        assert forall|k: int| 0 <= k < ts.len() implies frame_children_ok(ts, k, groups) by {
            if k < rest.len() {
                assert(ts[k] == pre[k]);
                assert(frame_children_ok(pre, k, oldgs));
                carry_frame_children_state(pre, ts, k, oldgs, groups);
            }
        }
        assert forall|gid: int|
            0 <= gid < groups.len() && (#[trigger] groups[gid]).explored implies group_done(
            groups,
            gid,
        ) || pending(ts, gid) by {
            if gid == g as int {
                assert(names_gid(ts[ts.len() - 1], g as int));
                assert(drains(ts[ts.len() - 1], gid));
                assert(pending(ts, gid));
            } else {
                assert(groups[gid] == oldgs[gid]);
                if group_done(oldgs, gid) {
                    assert(group_done(groups, gid));
                } else {
                    let k = choose|k: int| 0 <= k < pre.len() && drains(#[trigger] pre[k], gid);
                    assert(k < rest.len());
                    assert(ts[k] == pre[k]);
                    assert(pending(ts, gid));
                }
            }
        }
        assert forall|gid: int, k: int|
            0 <= k < pre.len() && #[trigger] names_gid(pre[k], gid) implies exists|k2: int|
            0 <= k2 < ts.len() && names_gid(#[trigger] ts[k2], gid) by {
            if k < rest.len() {
                assert(ts[k] == pre[k]);
            } else {
                assert(gid == g as int);
                assert(names_gid(ts[ts.len() - 1], gid));
            }
        }
    }
}


impl RuleMatcher {
    /// Invariant restoration after the rules fire mid-processing: the memo and
    /// arena may have grown, the processed group's queue may hold new derived
    /// expressions, and everything else stands as it was.
    proof fn restore_after_rules(
        &self,
        memo0: Map<u64, usize>,
        memo2: Map<u64, usize>,
        gs0: Seq<Group>,
        gs2: Seq<Group>,
        pre: Seq<Task>,
        g: usize,
    )
        requires
            explore_inv(memo0, gs0, pre),
            pre.len() > 0,
            drains(pre.last(), g as int),
            (g as int) < gs0.len(),
            memo_wf(memo2, gs2),
            groups_members_ok(gs2),
            memo2.dom().len() <= fingerprint_space(),
            gs0.len() <= gs2.len(),
            forall|i: int| 0 <= i < gs0.len() && i != g as int ==> gs2[i] == gs0[i],
            gs2[g as int].explored == gs0[g as int].explored,
            gs2[g as int].equivalent_logical_mexprs == gs0[g as int].equivalent_logical_mexprs,
            gs2[g as int].cheapest_logical_expression == gs0[
                g as int
            ].cheapest_logical_expression,
            gs2[g as int].min_cost == gs0[g as int].min_cost,
            gs2[g as int].start_expression == gs0[g as int].start_expression,
            gs2[g as int].source_node == gs0[g as int].source_node,
            forall|i: int|
                gs0.len() <= i < gs2.len() ==> fresh_group_ok(#[trigger] gs2[i], gs2.len()),
        ensures
            explore_inv(memo2, gs2, pre),
            forall|i: int| 0 <= i < gs0.len() && gs0[i].explored ==> gs2[i].explored,
    {
        assert(equiv_members_ok(gs2)) by {
            assert forall|gid2: int, k: int|
                0 <= gid2 < gs2.len() && 0 <= k
                    < gs2[gid2].equivalent_logical_mexprs@.len() implies equiv_member_ok(
                gs2,
                #[trigger] gs2[gid2].equivalent_logical_mexprs@[k],
            ) by {
                let mm = gs2[gid2].equivalent_logical_mexprs@[k];
                if gid2 < gs0.len() {
                    assert(gs2[gid2].equivalent_logical_mexprs
                        == gs0[gid2].equivalent_logical_mexprs);
                    assert(equiv_member_ok(gs0, mm));
                    lemma_ops_in_range_monotone(mm.operands@, gs0.len(), gs2.len());
                    assert forall|j: int| 0 <= j < mm.operands@.len() implies gs2[
                        #[trigger] mm.operands@[j] as int
                    ].explored by {
                        let o = mm.operands@[j] as int;
                        assert(gs0[o].explored);
                        if o != g as int {
                            assert(gs2[o] == gs0[o]);
                        }
                    }
                } else {
                    assert(fresh_group_ok(gs2[gid2], gs2.len()));
                    assert(gs2[gid2].equivalent_logical_mexprs@.len() == 0);
                }
            }
        }
        assert(cheapest_dominated(gs2)) by {
            assert forall|gid2: int|
                0 <= gid2 < gs2.len() implies match (
            #[trigger] gs2[gid2]).cheapest_logical_expression {
                Some(p) => exists|i: int|
                    0 <= i < gs2[gid2].equivalent_logical_mexprs@.len() && !cost_lt(
                        p.cost,
                        gs2[gid2].equivalent_logical_mexprs@[i].cost,
                    ),
                None => true,
            } by {
                if gid2 < gs0.len() {
                    assert(gs2[gid2].cheapest_logical_expression == gs0[
                        gid2
                    ].cheapest_logical_expression);
                    assert(gs2[gid2].equivalent_logical_mexprs
                        == gs0[gid2].equivalent_logical_mexprs);
                } else {
                    assert(fresh_group_ok(gs2[gid2], gs2.len()));
                }
            }
        }
        assert forall|k: int| 0 <= k < pre.len() implies task_basic_ok(#[trigger] pre[k], gs2) by {
            assert(task_basic_ok(pre[k], gs0));
            match pre[k] {
                Task::ProcessExpr(_, mm, _) => {
                    lemma_ops_in_range_monotone(mm.operands@, gs0.len(), gs2.len());
                },
                _ => {},
            }
        }
        assert forall|k: int| 0 <= k < pre.len() implies frame_children_ok(pre, k, gs2) by {
            assert(frame_children_ok(pre, k, gs0));
            match pre[k] {
                Task::ProcessExpr(_, mm, i) => {
                    assert(task_basic_ok(pre[k], gs0));
                    assert forall|j: int|
                        0 <= j < i && (#[trigger] mm.operands@[j] as int) < gs2.len() implies gs2[
                        mm.operands@[j] as int
                    ].explored || exists|k2: int|
                        k < k2 < pre.len() && names_gid(
                            #[trigger] pre[k2],
                            mm.operands@[j] as int,
                        ) by {
                        let o = mm.operands@[j] as int;
                        assert(o < gs0.len());
                        if gs0[o].explored {
                            if o != g as int {
                                assert(gs2[o] == gs0[o]);
                            }
                            assert(gs2[o].explored);
                        }
                    }
                },
                _ => {},
            }
        }
        assert forall|gid: int|
            0 <= gid < gs2.len() && (#[trigger] gs2[gid]).explored implies group_done(gs2, gid)
            || pending(pre, gid) by {
            if gid >= gs0.len() {
                assert(fresh_group_ok(gs2[gid], gs2.len()));
                assert(!gs2[gid].explored);
            } else if gid == g as int {
                assert(drains(pre[pre.len() - 1], gid));
                assert(pending(pre, gid));
            } else {
                assert(gs2[gid] == gs0[gid]);
                if group_done(gs0, gid) {
                    assert(group_done(gs2, gid));
                }
            }
        }
        assert forall|i: int|
            0 <= i < gs0.len() && gs0[i].explored implies gs2[i].explored by {
            if i != g as int {
                assert(gs2[i] == gs0[i]);
            }
        }
    }
}

/// Two arenas of the same length whose queues agree position by position
/// carry the same queued total.
proof fn lemma_total_eq(a: Seq<Group>, b: Seq<Group>)
    requires
        a.len() == b.len(),
        forall|i: int|
            0 <= i < a.len() ==> (#[trigger] a[i]).unexplored_equivalent_logical_mexprs@.len() == (
            #[trigger] b[i]).unexplored_equivalent_logical_mexprs@.len(),
    ensures
        total_unexplored(a) == total_unexplored(b),
    decreases a.len(),
{
    if a.len() > 0 {
        assert forall|i: int|
            0 <= i < a.drop_last().len() implies (
        #[trigger] a.drop_last()[i]).unexplored_equivalent_logical_mexprs@.len() == (
        #[trigger] b.drop_last()[i]).unexplored_equivalent_logical_mexprs@.len() by {
            assert(a.drop_last()[i] == a[i]);
            assert(b.drop_last()[i] == b[i]);
        }
        lemma_total_eq(a.drop_last(), b.drop_last());
    }
}

} // verus!
