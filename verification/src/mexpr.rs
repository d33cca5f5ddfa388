//! Multi-expressions: one operator payload plus ordered child-group indices,
//! with a cached fingerprint, row count and cost.

use vstd::prelude::*;
use crate::expr::ExprV;
use crate::plan::{PlanNode, PlanV, encode_payload_view, encode_payload_into};
use crate::hashing::{xxh3_of, xxh3_bytes, u64_le_bytes, push_u64_le};
use crate::group::{Group, group_hash_of, group_row_count_of, group_cost_of};
use crate::expression_utils::{pairs_as_preds, unique_reps, get_unique_equalities, view_pairs, canon_reps};
use crate::expr::ScalarExpr;
use vstd::arithmetic::mul::lemma_mul_upper_bound;

verus! {

/// Rows assumed for a table scan that does not say how many it yields.
pub const DEFAULT_ROW_COUNT: u64 = 1000;

/// Cost charged per row a projection passes through.
pub const PROJECT_COST_PER_ROW: u64 = 1;

/// Cost charged per row a filter lets pass.
pub const FILTER_COST_PER_ROW: u64 = 1;

/// Cost charged per row a join produces.
pub const JOIN_COST_PER_ROW: u64 = 1;

/// Product capped at the largest representable value.
pub open spec fn sat_mul(a: u64, b: u64) -> u64 {
    if a * b > u64::MAX {
        u64::MAX
    } else {
        (a * b) as u64
    }
}

/// Sum capped at the largest representable value.
pub open spec fn sat_add(a: u64, b: u64) -> u64 {
    if a + b > u64::MAX {
        u64::MAX
    } else {
        (a + b) as u64
    }
}

/// The little-endian bytes of a list of fingerprints, in order.
pub open spec fn hashes_bytes(hs: Seq<u64>) -> Seq<u8>
    decreases hs.len(),
{
    if hs.len() == 0 {
        Seq::empty()
    } else {
        hashes_bytes(hs.drop_last()) + u64_le_bytes(hs.last())
    }
}

/// The fingerprint of a multi-expression: the hash of its operand group
/// fingerprints in order, followed by its operator payload's encoding.
pub open spec fn fingerprint_of(operand_hashes: Seq<u64>, payload: PlanV) -> u64 {
    xxh3_of(hashes_bytes(operand_hashes) + encode_payload_view(payload))
}

/// The fingerprints of the groups that a list of indices names.
pub open spec fn group_hashes(gs: Seq<Group>, ops: Seq<usize>) -> Seq<u64> {
    Seq::new(ops.len(), |i: int| group_hash_of(gs[ops[i] as int]))
}

/// Whether every index names a group in the arena.
pub open spec fn ops_in_range(ops: Seq<usize>, n: nat) -> bool {
    forall|i: int| 0 <= i < ops.len() ==> (#[trigger] ops[i] as nat) < n
}

/// One multi-expression: an operator payload and the groups standing for its
/// children. The cost and row count stay unknown until the children are
/// explored.
#[derive(Debug)]
pub struct MExpr {
    pub hash: u64,
    pub cost: Option<u64>,
    pub row_count: u64,
    pub op: PlanNode,
    pub operands: Vec<usize>,
    pub canonicalized: String,
}

/// Whether two multi-expressions carry the same content.
pub open spec fn same_mexpr(a: MExpr, b: MExpr) -> bool {
    &&& a.hash == b.hash
    &&& a.cost == b.cost
    &&& a.row_count == b.row_count
    &&& a.op@ == b.op@
    &&& a.operands@ == b.operands@
    &&& a.canonicalized@ == b.canonicalized@
}

/// Whether two optional multi-expressions carry the same content.
pub open spec fn opt_same_mexpr(a: Option<MExpr>, b: Option<MExpr>) -> bool {
    match a {
        Some(x) => b matches Some(y) && same_mexpr(x, y),
        None => b is None,
    }
}

/// The decimal digit character for a value below ten.
pub open spec fn dec_digit_char(d: nat) -> char {
    if d == 0 {
        '0'
    } else if d == 1 {
        '1'
    } else if d == 2 {
        '2'
    } else if d == 3 {
        '3'
    } else if d == 4 {
        '4'
    } else if d == 5 {
        '5'
    } else if d == 6 {
        '6'
    } else if d == 7 {
        '7'
    } else if d == 8 {
        '8'
    } else {
        '9'
    }
}

/// The decimal rendering of a number.
pub open spec fn dec_str(n: nat) -> Seq<char>
    decreases n,
{
    if n < 10 {
        seq![dec_digit_char(n)]
    } else {
        dec_str(n / 10) + seq![dec_digit_char(n % 10)]
    }
}

/// The decimal digit string for a value below ten.
fn digit_str(d: u64) -> (s: &'static str)
    requires
        d < 10,
    ensures
        s@ == seq![dec_digit_char(d as nat)],
{
    proof {
        reveal_strlit("0");
        reveal_strlit("1");
        reveal_strlit("2");
        reveal_strlit("3");
        reveal_strlit("4");
        reveal_strlit("5");
        reveal_strlit("6");
        reveal_strlit("7");
        reveal_strlit("8");
        reveal_strlit("9");
    }
    let s: &'static str = if d == 0 {
        "0"
    } else if d == 1 {
        "1"
    } else if d == 2 {
        "2"
    } else if d == 3 {
        "3"
    } else if d == 4 {
        "4"
    } else if d == 5 {
        "5"
    } else if d == 6 {
        "6"
    } else if d == 7 {
        "7"
    } else if d == 8 {
        "8"
    } else {
        "9"
    };
    proof {
        assert(s@ =~= seq![dec_digit_char(d as nat)]);
    }
    s
}

/// Renders a number in decimal.
pub fn u64_to_dec(n: u64) -> (s: String)
    ensures
        s@ == dec_str(n as nat),
    decreases n,
{
    if n < 10 {
        let d = digit_str(n);
        let s = d.to_owned();
        s
    } else {
        let mut s = u64_to_dec(n / 10);
        let d = digit_str(n % 10);
        s.append(d);
        proof {
            assert(s@ =~= dec_str(n as nat));
        }
        s
    }
}

/// The configured join selectivities: each entry relates an unordered pair of
/// table names to a fraction, held as numerator and denominator.
#[derive(Debug)]
pub struct SelectivityTable {
    pub entries: Vec<(String, String, u64, u64)>,
}

impl SelectivityTable {
    /// Every fraction lies in the half-open unit interval: at least one part
    /// per denominator, never more than the whole.
    pub open spec fn wf(self) -> bool {
        forall|i: int|
            0 <= i < self.entries@.len() ==> 1 <= (#[trigger] self.entries@[i]).2
                <= self.entries@[i].3
    }
}

/// The fraction the table gives an unordered pair of table names: the first
/// entry that matches in either order, or one (no reduction) when none does.
pub open spec fn lookup_sel(
    entries: Seq<(String, String, u64, u64)>,
    a: Seq<char>,
    b: Seq<char>,
) -> (u64, u64)
    decreases entries.len(),
{
    if entries.len() == 0 {
        (1u64, 1u64)
    } else {
        let e = entries[0];
        if (e.0@ == a && e.1@ == b) || (e.0@ == b && e.1@ == a) {
            (e.2, e.3)
        } else {
            lookup_sel(entries.drop_first(), a, b)
        }
    }
}

/// The selectivity factor one representative equality contributes: a table
/// lookup when both sides are table-qualified columns, and no reduction
/// otherwise.
pub open spec fn rep_factor(
    entries: Seq<(String, String, u64, u64)>,
    x: ExprV,
    y: ExprV,
) -> (u64, u64) {
    match (x, y) {
        (ExprV::Column(cx), ExprV::Column(cy)) => match (cx.relation, cy.relation) {
            (Some(ta), Some(tb)) => lookup_sel(entries, ta, tb),
            _ => (1u64, 1u64),
        },
        _ => (1u64, 1u64),
    }
}

/// The product of the selectivity factors of a list of representative
/// equalities, capped at the largest representable value.
pub open spec fn sel_product(
    entries: Seq<(String, String, u64, u64)>,
    reps: Seq<(ExprV, ExprV)>,
) -> (u64, u64)
    decreases reps.len(),
{
    if reps.len() == 0 {
        (1u64, 1u64)
    } else {
        let rest = sel_product(entries, reps.drop_last());
        let f = rep_factor(entries, reps.last().0, reps.last().1);
        (sat_mul(rest.0, f.0), sat_mul(rest.1, f.1))
    }
}

/// A selectivity product stays a fraction of at most one.
pub proof fn lemma_sel_product_wf(
    entries: Seq<(String, String, u64, u64)>,
    reps: Seq<(ExprV, ExprV)>,
)
    requires
        forall|i: int| 0 <= i < entries.len() ==> 1 <= (#[trigger] entries[i]).2 <= entries[i].3,
    ensures
        1 <= sel_product(entries, reps).0 <= sel_product(entries, reps).1,
    decreases reps.len(),
{
    lemma_lookup_wf(entries);
    if reps.len() > 0 {
        lemma_sel_product_wf(entries, reps.drop_last());
        let rest = sel_product(entries, reps.drop_last());
        let f = rep_factor(entries, reps.last().0, reps.last().1);
        assert(1 <= f.0 <= f.1);
        lemma_mul_upper_bound(1, rest.0 as int, 1, f.0 as int);
        lemma_mul_upper_bound(rest.0 as int, rest.1 as int, f.0 as int, f.1 as int);
    }
}

/// Every lookup yields a fraction of at most one.
proof fn lemma_lookup_wf(entries: Seq<(String, String, u64, u64)>)
    requires
        forall|i: int| 0 <= i < entries.len() ==> 1 <= (#[trigger] entries[i]).2 <= entries[i].3,
    ensures
        forall|a: Seq<char>, b: Seq<char>|
            1 <= (#[trigger] lookup_sel(entries, a, b)).0 <= lookup_sel(entries, a, b).1,
    decreases entries.len(),
{
    if entries.len() > 0 {
        let rest = entries.drop_first();
        assert forall|i: int| 0 <= i < rest.len() implies 1 <= (#[trigger] rest[i]).2
            <= rest[i].3 by {
            assert(rest[i] == entries[i + 1]);
        }
        lemma_lookup_wf(rest);
        assert forall|a: Seq<char>, b: Seq<char>|
            1 <= (#[trigger] lookup_sel(entries, a, b)).0 <= lookup_sel(entries, a, b).1 by {
            let e = entries[0];
            if !((e.0@ == a && e.1@ == b) || (e.0@ == b && e.1@ == a)) {
                assert(lookup_sel(entries, a, b) == lookup_sel(rest, a, b));
            } else {
                assert(1 <= entries[0].2 <= entries[0].3);
            }
        }
    }
}

/// Whether a fraction is a selectivity product over one representative
/// equality per multi-element class of the join keys.
pub open spec fn join_selectivity_ok(
    on: Seq<(ScalarExpr, ScalarExpr)>,
    entries: Seq<(String, String, u64, u64)>,
    sel: (u64, u64),
) -> bool {
    exists|reps: Seq<(ExprV, ExprV)>|
        unique_reps(pairs_as_preds(on), reps) && sel == #[trigger] sel_product(entries, reps)
}

/// The row count after applying a selectivity fraction to a raw product:
/// the floor of the scaled product, capped at the largest representable
/// value.
pub open spec fn apply_sel(num: u64, den: u64, prod: u64) -> u64
    recommends
        den >= 1,
{
    if (num as int) * (prod as int) / (den as int) > u64::MAX as int {
        u64::MAX
    } else {
        ((num as int) * (prod as int) / (den as int)) as u64
    }
}

/// The row counts the operand groups report, in order.
pub open spec fn operand_rows(gs: Seq<Group>, ops: Seq<usize>) -> Seq<u64> {
    Seq::new(ops.len(), |i: int| group_row_count_of(gs[ops[i] as int]))
}

/// The product of a list of row counts, capped.
pub open spec fn rows_product(rows: Seq<u64>) -> u64
    decreases rows.len(),
{
    if rows.len() == 0 {
        1u64
    } else {
        sat_mul(rows_product(rows.drop_last()), rows.last())
    }
}

/// The sum of the operand groups' reported costs, capped.
pub open spec fn operand_costs(gs: Seq<Group>, ops: Seq<usize>) -> u64
    decreases ops.len(),
{
    if ops.len() == 0 {
        0u64
    } else {
        sat_add(operand_costs(gs, ops.drop_last()), group_cost_of(gs[ops.last() as int]))
    }
}

/// The first row count of a list, or the default when it is empty.
pub open spec fn first_row(rows: Seq<u64>) -> u64 {
    if rows.len() == 0 {
        DEFAULT_ROW_COUNT
    } else {
        rows[0]
    }
}

/// What updating the cost and row count of a multi-expression yields, given
/// the operator payload, the operand group statistics, and (for joins) the
/// selectivity it settled on.
pub open spec fn update_ok(
    m: MExpr,
    old_m: MExpr,
    gs: Seq<Group>,
    entries: Seq<(String, String, u64, u64)>,
) -> bool {
    let rows = operand_rows(gs, old_m.operands@);
    let csum = operand_costs(gs, old_m.operands@);
    &&& m.hash == old_m.hash
    &&& m.op == old_m.op
    &&& m.operands == old_m.operands
    &&& m.canonicalized == old_m.canonicalized
    &&& m.cost is Some
    &&& match old_m.op@ {
        PlanV::Projection { .. } => m.row_count == first_row(rows) && m.cost == Some(
            sat_add(sat_mul(PROJECT_COST_PER_ROW, first_row(rows)), csum),
        ),
        PlanV::Filter { .. } => m.row_count == first_row(rows) / 10 && m.cost == Some(
            sat_add(sat_mul(FILTER_COST_PER_ROW, first_row(rows) / 10), csum),
        ),
        PlanV::Join { .. } => {
            let sel = sel_product(
                entries,
                canon_reps(view_pairs(old_m.op.spec_join_on())),
            );
            &&& m.row_count == (if sel.0 == sel.1 {
                rows_product(rows)
            } else {
                apply_sel(sel.0, sel.1, rows_product(rows))
            })
            &&& m.cost == Some(sat_add(sat_mul(JOIN_COST_PER_ROW, m.row_count), csum))
        },
        PlanV::TableScan { fetch, .. } => m.row_count == (match fetch {
            Some(n) => n,
            None => DEFAULT_ROW_COUNT,
        }) && m.cost == Some(m.row_count),
        _ => m.row_count == DEFAULT_ROW_COUNT && m.cost == Some(0u64),
    }
}

impl PlanNode {
    /// The equi-join keys a join payload carries; empty for any other
    /// operator.
    pub open spec fn spec_join_on(self) -> Seq<(ScalarExpr, ScalarExpr)> {
        match self {
            PlanNode::Join { on, .. } => on@,
            _ => Seq::empty(),
        }
    }
}

impl MExpr {
    /// Builds a multi-expression over the given operand groups, computing its
    /// fingerprint from the operand group fingerprints and the payload. The
    /// cost and row count start out unknown and lose every comparison.
    pub fn build_with_node(node: PlanNode, operands: Vec<usize>, groups: &Vec<Group>) -> (m: MExpr)
        requires
            ops_in_range(operands@, groups@.len()),
        ensures
            m.hash == fingerprint_of(group_hashes(groups@, operands@), node@),
            m.cost is None,
            m.row_count == u64::MAX,
            m.op == node,
            m.operands == operands,
            m.canonicalized@ == dec_str(m.hash as nat),
    {
        let mut bytes: Vec<u8> = Vec::new();
        let mut i: usize = 0;
        while i < operands.len()
            invariant
                i <= operands@.len(),
                ops_in_range(operands@, groups@.len()),
                bytes@ == hashes_bytes(group_hashes(groups@, operands@).take(i as int)),
            decreases operands@.len() - i,
        {
            let gid = operands[i];
            let h = groups[gid].get_group_hash();
            push_u64_le(&mut bytes, h);
            proof {
                let hs = group_hashes(groups@, operands@);
                assert(hs.take(i as int + 1).drop_last() =~= hs.take(i as int));
                assert(hs.take(i as int + 1).last() == hs[i as int]);
            }
            i = i + 1;
        }
        proof {
            let hs = group_hashes(groups@, operands@);
            assert(hs.take(hs.len() as int) =~= hs);
        }
        encode_payload_into(&node, &mut bytes);
        let hash = xxh3_bytes(&bytes);
        let canonicalized = u64_to_dec(hash);
        MExpr { hash, cost: None, row_count: u64::MAX, op: node, operands, canonicalized }
    }

    /// A copy carrying the same content.
    pub fn clone_mexpr(&self) -> (r: MExpr)
        ensures
            same_mexpr(r, *self),
    {
        let mut ops: Vec<usize> = Vec::new();
        let mut i: usize = 0;
        while i < self.operands.len()
            invariant
                i <= self.operands@.len(),
                ops@ == self.operands@.take(i as int),
            decreases self.operands@.len() - i,
        {
            ops.push(self.operands[i]);
            i = i + 1;
            proof {
                assert(ops@ =~= self.operands@.take(i as int));
            }
        }
        proof {
            assert(self.operands@.take(self.operands@.len() as int) =~= self.operands@);
        }
        MExpr {
            hash: self.hash,
            cost: self.cost,
            row_count: self.row_count,
            op: self.op.clone_plan(),
            operands: ops,
            canonicalized: self.canonicalized.clone(),
        }
    }

    /// Recomputes this expression's row count and cost from its operand
    /// groups' statistics, per the cost model. Meant to run once the operand
    /// groups are explored; the fingerprint, payload and operands stay as
    /// they are.
    #[verifier::rlimit(50)]
    pub fn update_cost_and_rowcount(&mut self, groups: &Vec<Group>, table: &SelectivityTable)
        requires
            ops_in_range(old(self).operands@, groups@.len()),
            table.wf(),
        ensures
            update_ok(*final(self), *old(self), groups@, table.entries@),
    {
        let mut rows: Vec<u64> = Vec::new();
        let mut csum: u64 = 0;
        let mut i: usize = 0;
        while i < self.operands.len()
            invariant
                i <= self.operands@.len(),
                self == old(self),
                ops_in_range(self.operands@, groups@.len()),
                rows@ == operand_rows(groups@, self.operands@).take(i as int),
                csum == operand_costs(groups@, self.operands@.take(i as int)),
            decreases self.operands@.len() - i,
        {
            let gid = self.operands[i];
            let g = &groups[gid];
            rows.push(g.get_group_row_count());
            csum = add_sat(csum, g.get_group_cost());
            proof {
                let rs = operand_rows(groups@, self.operands@);
                assert(rs.take(i as int + 1).drop_last() =~= rs.take(i as int));
                assert(rs.take(i as int + 1).last() == rs[i as int]);
                assert(self.operands@.take(i as int + 1).drop_last() =~= self.operands@.take(
                    i as int,
                ));
                assert(self.operands@.take(i as int + 1).last() == self.operands@[i as int]);
            }
            i = i + 1;
        }
        proof {
            let rs = operand_rows(groups@, self.operands@);
            assert(rs.take(rs.len() as int) =~= rs);
            assert(self.operands@.take(self.operands@.len() as int) =~= self.operands@);
        }
        let first = if rows.len() > 0 {
            rows[0]
        } else {
            DEFAULT_ROW_COUNT
        };
        let ghost rowsspec = operand_rows(groups@, self.operands@);
        proof {
            assert(first == first_row(rowsspec));
        }
        match &self.op {
            PlanNode::Projection { .. } => {
                self.row_count = first;
                self.cost = Some(add_sat(mul_sat(PROJECT_COST_PER_ROW, first), csum));
                proof {
                    assert(self.op@ is Projection);
                    assert(update_ok(*self, *old(self), groups@, table.entries@));
                }
            },
            PlanNode::Filter { .. } => {
                self.row_count = first / 10;
                self.cost = Some(add_sat(mul_sat(FILTER_COST_PER_ROW, first / 10), csum));
                proof {
                    assert(self.op@ is Filter);
                    assert(update_ok(*self, *old(self), groups@, table.entries@));
                }
            },
            PlanNode::Join { on, .. } => {
                let sel = Self::get_join_selectivity(on, table);
                let mut prod: u64 = 1;
                let mut t: usize = 0;
                while t < rows.len()
                    invariant
                        t <= rows@.len(),
                        prod == rows_product(rows@.take(t as int)),
                    decreases rows@.len() - t,
                {
                    prod = mul_sat(prod, rows[t]);
                    proof {
                        assert(rows@.take(t as int + 1).drop_last() =~= rows@.take(t as int));
                        assert(rows@.take(t as int + 1).last() == rows@[t as int]);
                    }
                    t = t + 1;
                }
                proof {
                    assert(rows@.take(rows@.len() as int) =~= rows@);
                }
                let row_count = if sel.0 == sel.1 {
                    prod
                } else {
                    proof {
                        lemma_mul_upper_bound(
                            sel.0 as int,
                            0xffff_ffff_ffff_ffff,
                            prod as int,
                            0xffff_ffff_ffff_ffff,
                        );
                    }
                    let scaled = (sel.0 as u128) * (prod as u128) / (sel.1 as u128);
                    if scaled > u64::MAX as u128 {
                        u64::MAX
                    } else {
                        scaled as u64
                    }
                };
                self.row_count = row_count;
                self.cost = Some(add_sat(mul_sat(JOIN_COST_PER_ROW, row_count), csum));
                proof {
                    assert(self.op@ is Join);
                    assert(self.op.spec_join_on() == on@);
                    assert(sel == sel_product(
                        table.entries@,
                        canon_reps(view_pairs(self.op.spec_join_on())),
                    ));
                    assert(prod == rows_product(rowsspec));
                    assert(self.row_count == (if sel.0 == sel.1 {
                        rows_product(rowsspec)
                    } else {
                        apply_sel(sel.0, sel.1, rows_product(rowsspec))
                    }));
                    assert(self.cost == Some(
                        sat_add(sat_mul(JOIN_COST_PER_ROW, self.row_count), csum),
                    ));
                    assert(update_ok(*self, *old(self), groups@, table.entries@));
                }
            },
            PlanNode::TableScan { fetch, .. } => {
                self.row_count = match fetch {
                    Some(n) => *n,
                    None => DEFAULT_ROW_COUNT,
                };
                self.cost = Some(self.row_count);
                proof {
                    assert(self.op@ is TableScan);
                    assert(update_ok(*self, *old(self), groups@, table.entries@));
                }
            },
            _ => {
                self.row_count = DEFAULT_ROW_COUNT;
                self.cost = Some(0);
                proof {
                    assert(update_ok(*self, *old(self), groups@, table.entries@));
                }
            },
        }
    }

    /// The product of the per-class selectivities of a join's equi-join keys:
    /// one representative equality is chosen per equivalence class, each is
    /// looked up by the table names on its two sides, and the fractions multiply.
    #[verifier::rlimit(60)]
    pub fn get_join_selectivity(on: &Vec<(ScalarExpr, ScalarExpr)>, table: &SelectivityTable) -> (r:
            (u64, u64))
        requires
            table.wf(),
        ensures
            r == sel_product(table.entries@, canon_reps(view_pairs(on@))),
            join_selectivity_ok(on@, table.entries@, r),
            1 <= r.0 <= r.1,
    {
        let reps = get_unique_equalities(on);
        let ghost repsv = view_pairs(reps@);
        let mut num: u64 = 1;
        let mut den: u64 = 1;
        proof {
            assert(repsv.take(0) =~= Seq::<(ExprV, ExprV)>::empty());
        }
        let mut i: usize = 0;
        while i < reps.len()
            invariant
                i <= reps@.len(),
                repsv == view_pairs(reps@),
                (num, den) == sel_product(table.entries@, repsv.take(i as int)),
            decreases reps@.len() - i,
        {
            let pair = &reps[i];
            let f = Self::rep_factor_exec(table, &pair.0, &pair.1);
            proof {
                assert(repsv[i as int] == (pair.0@, pair.1@));
                assert(repsv.take(i as int + 1).drop_last() =~= repsv.take(i as int));
                assert(repsv.take(i as int + 1).last() == repsv[i as int]);
            }
            num = mul_sat(num, f.0);
            den = mul_sat(den, f.1);
            i = i + 1;
        }
        proof {
            assert(repsv.take(repsv.len() as int) =~= repsv);
            assert(unique_reps(pairs_as_preds(on@), repsv));
            assert(join_selectivity_ok(on@, table.entries@, (num, den)));
            lemma_sel_product_wf(table.entries@, repsv);
        }
        (num, den)
    }

    /// The selectivity factor one representative equality contributes.
    fn rep_factor_exec(table: &SelectivityTable, x: &ScalarExpr, y: &ScalarExpr) -> (f: (u64, u64))
        ensures
            f == rep_factor(table.entries@, x@, y@),
    {
        match (x, y) {
            (ScalarExpr::Column(cx), ScalarExpr::Column(cy)) => match (&cx.relation, &cy.relation) {
                (Some(ta), Some(tb)) => lookup_selectivity(table, ta, tb),
                _ => (1, 1),
            },
            _ => (1, 1),
        }
    }

    /// The schema this expression's payload presents.
    pub fn get_schema(&self) -> (r: Option<crate::plan::Schema>)
        ensures
            r.deep_view() == crate::plan::schema_of_view(self.op@),
    {
        self.op.schema_of()
    }

    /// The cached fingerprint.
    pub fn hash(&self) -> (r: u64)
        ensures
            r == self.hash,
    {
        self.hash
    }

    /// The cached cost, if it has been computed.
    pub fn cost(&self) -> (r: Option<u64>)
        ensures
            r == self.cost,
    {
        self.cost
    }

    /// The operator payload.
    pub fn op(&self) -> (r: &PlanNode)
        ensures
            r == &self.op,
    {
        &self.op
    }

    /// The operand group indices.
    pub fn operands(&self) -> (r: &Vec<usize>)
        ensures
            r == &self.operands,
    {
        &self.operands
    }

    /// The canonical rendering of the fingerprint.
    pub fn canonicalized(&self) -> (r: &str)
        ensures
            r@ == self.canonicalized@,
    {
        self.canonicalized.as_str()
    }

    /// The cached row count.
    pub fn row_count(&self) -> (r: u64)
        ensures
            r == self.row_count,
    {
        self.row_count
    }
}

/// Capped addition.
pub fn add_sat(a: u64, b: u64) -> (r: u64)
    ensures
        r == sat_add(a, b),
{
    match a.checked_add(b) {
        Some(r) => r,
        None => u64::MAX,
    }
}

/// Capped multiplication.
pub fn mul_sat(a: u64, b: u64) -> (r: u64)
    ensures
        r == sat_mul(a, b),
{
    match a.checked_mul(b) {
        Some(r) => r,
        None => u64::MAX,
    }
}

/// Looks an unordered pair of table names up in the selectivity table.
fn lookup_selectivity(table: &SelectivityTable, a: &String, b: &String) -> (r: (u64, u64))
    ensures
        r == lookup_sel(table.entries@, a@, b@),
{
    proof {
        assert(table.entries@.skip(0) =~= table.entries@);
    }
    let mut i: usize = 0;
    while i < table.entries.len()
        invariant
            i <= table.entries@.len(),
            lookup_sel(table.entries@, a@, b@) == lookup_sel(
                table.entries@.skip(i as int),
                a@,
                b@,
            ),
        decreases table.entries@.len() - i,
    {
        let e = &table.entries[i];
        proof {
            assert(table.entries@.skip(i as int)[0] == table.entries@[i as int]);
            assert(table.entries@.skip(i as int).drop_first() =~= table.entries@.skip(
                i as int + 1,
            ));
        }
        if (e.0.eq(a) && e.1.eq(b)) || (e.0.eq(b) && e.1.eq(a)) {
            return (e.2, e.3);
        }
        i = i + 1;
    }
    proof {
        assert(table.entries@.skip(table.entries@.len() as int) =~= Seq::<
            (String, String, u64, u64),
        >::empty());
    }
    (1, 1)
}

/// Whether a table entry relates the two named tables by the given fraction.
pub open spec fn sel_entry_is(
    e: (String, String, u64, u64),
    a: Seq<char>,
    b: Seq<char>,
    num: u64,
    den: u64,
) -> bool {
    e.0@ == a && e.1@ == b && e.2 == num && e.3 == den
}

/// The selectivity table the optimizer is configured with by default: one
/// per mille for every table pair except the last, which keeps a tenth.
pub fn default_selectivities() -> (r: SelectivityTable)
    ensures
        r.wf(),
        r.entries@.len() == 10,
        sel_entry_is(r.entries@[0], "t1"@, "t2"@, 1, 1000),
        sel_entry_is(r.entries@[1], "t1"@, "t3"@, 1, 1000),
        sel_entry_is(r.entries@[2], "t1"@, "t4"@, 1, 1000),
        sel_entry_is(r.entries@[3], "t1"@, "t5"@, 1, 1000),
        sel_entry_is(r.entries@[4], "t2"@, "t3"@, 1, 1000),
        sel_entry_is(r.entries@[5], "t2"@, "t4"@, 1, 1000),
        sel_entry_is(r.entries@[6], "t2"@, "t5"@, 1, 1000),
        sel_entry_is(r.entries@[7], "t3"@, "t4"@, 1, 1000),
        sel_entry_is(r.entries@[8], "t3"@, "t5"@, 1, 1000),
        sel_entry_is(r.entries@[9], "t4"@, "t5"@, 1, 10),
{
    let mut entries: Vec<(String, String, u64, u64)> = Vec::new();
    entries.push((String::from_str("t1"), String::from_str("t2"), 1, 1000));
    entries.push((String::from_str("t1"), String::from_str("t3"), 1, 1000));
    entries.push((String::from_str("t1"), String::from_str("t4"), 1, 1000));
    entries.push((String::from_str("t1"), String::from_str("t5"), 1, 1000));
    entries.push((String::from_str("t2"), String::from_str("t3"), 1, 1000));
    entries.push((String::from_str("t2"), String::from_str("t4"), 1, 1000));
    entries.push((String::from_str("t2"), String::from_str("t5"), 1, 1000));
    entries.push((String::from_str("t3"), String::from_str("t4"), 1, 1000));
    entries.push((String::from_str("t3"), String::from_str("t5"), 1, 1000));
    entries.push((String::from_str("t4"), String::from_str("t5"), 1, 10));
    SelectivityTable { entries }
}

} // verus!
