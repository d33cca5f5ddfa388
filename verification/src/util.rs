//! Diagnostic walks over the explored memo: enumerating and rendering trees.

use vstd::prelude::*;
use vstd::string::StringExecFns;
use crate::group::Group;
use crate::mexpr::{MExpr, u64_to_dec, dec_str, sat_mul, sat_add, mul_sat, add_sat, ops_in_range};
use crate::plan::PlanNode;

verus! {

/// Two rendered trees joined by one space; an empty right side adds nothing.
pub open spec fn joined(s: Seq<char>, t: Seq<char>) -> Seq<char> {
    if t.len() == 0 {
        s
    } else {
        s + seq![' '] + t
    }
}

/// One left pick joined with each right pick, in order.
pub open spec fn cart_one(s: Seq<char>, rest: Seq<Seq<char>>) -> Seq<Seq<char>>
    decreases rest.len(),
{
    if rest.len() == 0 {
        Seq::empty()
    } else {
        seq![joined(s, rest[0])] + cart_one(s, rest.drop_first())
    }
}

/// Every left pick joined with every right pick, left-major.
pub open spec fn cart_combine(first: Seq<Seq<char>>, rest: Seq<Seq<char>>) -> Seq<Seq<char>>
    decreases first.len(),
{
    if first.len() == 0 {
        Seq::empty()
    } else {
        cart_one(first[0], rest) + cart_combine(first.drop_first(), rest)
    }
}

/// The space-joined Cartesian product of a list of string lists.
pub open spec fn cart(lists: Seq<Seq<Seq<char>>>) -> Seq<Seq<char>>
    decreases lists.len(),
{
    if lists.len() == 0 {
        seq![Seq::<char>::empty()]
    } else {
        cart_combine(lists[0], cart(lists.drop_first()))
    }
}

/// The Cartesian product of a list of string lists, each combination joined
/// by single spaces.
pub fn get_cartesian_product(lists: &Vec<Vec<String>>) -> (r: Vec<String>)
    ensures
        r.deep_view() == cart(lists.deep_view()),
{
    let r = cart_from(lists, 0);
    proof {
        assert(lists.deep_view().skip(0) =~= lists.deep_view());
    }
    r
}

/// The product of the lists from `start` on.
fn cart_from(lists: &Vec<Vec<String>>, start: usize) -> (r: Vec<String>)
    requires
        start <= lists@.len(),
    ensures
        r.deep_view() == cart(lists.deep_view().skip(start as int)),
    decreases lists@.len() - start,
{
    let ghost tail = lists.deep_view().skip(start as int);
    if start == lists.len() {
        let mut r: Vec<String> = Vec::new();
        r.push(String::new());
        proof {
            assert(tail =~= Seq::<Seq<Seq<char>>>::empty());
            assert(r.deep_view() =~= cart(tail));
        }
        r
    } else {
        let rest = cart_from(lists, start + 1);
        proof {
            assert(tail.drop_first() =~= lists.deep_view().skip(start as int + 1));
            assert(tail[0] == lists.deep_view()[start as int]);
        }
        let first = &lists[start];
        let mut out: Vec<String> = Vec::new();
        let mut i: usize = 0;
        while i < first.len()
            invariant
                i <= first@.len(),
                first == &lists@[start as int],
                start < lists@.len(),
                rest.deep_view() == cart(lists.deep_view().skip(start as int + 1)),
                out.deep_view() == cart_combine(
                    lists.deep_view()[start as int].take(i as int),
                    rest.deep_view(),
                ),
            decreases first@.len() - i,
        {
            let s = &first[i];
            let ghost outpre = out.deep_view();
            let mut j: usize = 0;
            while j < rest.len()
                invariant
                    j <= rest@.len(),
                    s == &first@[i as int],
                    i < first@.len(),
                    first == &lists@[start as int],
                    out.deep_view() == outpre + cart_one(
                        s@,
                        rest.deep_view().take(j as int),
                    ),
                decreases rest@.len() - j,
            {
                let t = &rest[j];
                let joined_s = if t.as_str().unicode_len() == 0 {
                    let mut c = String::new();
                    c.append(s.as_str());
                    c
                } else {
                    let mut c = String::new();
                    c.append(s.as_str());
                    c.append(" ");
                    c.append(t.as_str());
                    c
                };
                proof {
                    reveal_strlit(" ");
                    assert(joined_s@ =~= joined(s@, rest.deep_view()[j as int]));
                }
                let ghost prevec = out@;
                let ghost predv = out.deep_view();
                let ghost prejoin = joined_s@;
                out.push(joined_s);
                j = j + 1;
                proof {
                    let rv = rest.deep_view();
                    lemma_cart_one_push(s@, rv, j as int);
                    assert(predv == outpre + cart_one(s@, rv.take(j as int - 1)));
                    assert forall|t: int| 0 <= t < out@.len() implies out.deep_view()[t] == (outpre
                        + cart_one(s@, rv.take(j as int)))[t] by {
                        assert(out.deep_view()[t] == out@[t]@);
                        if t < prevec.len() {
                            assert(out@[t] == prevec[t]);
                            assert(predv[t] == prevec[t]@);
                            assert((outpre + cart_one(s@, rv.take(j as int)))[t] == predv[t]);
                        } else {
                            assert(out@[t]@ == prejoin);
                            assert(prejoin == joined(s@, rv[j as int - 1]));
                            assert((outpre + cart_one(s@, rv.take(j as int)))[t] == joined(
                                s@,
                                rv[j as int - 1],
                            ));
                        }
                    }
                    assert(out.deep_view() =~= outpre + cart_one(s@, rv.take(j as int)));
                }
            }
            proof {
                assert(rest.deep_view().take(rest@.len() as int) =~= rest.deep_view());
            }
            i = i + 1;
            proof {
                let fv = lists.deep_view()[start as int];
                lemma_cart_combine_take(fv, rest.deep_view(), i as int);
                assert(out.deep_view() =~= cart_combine(fv.take(i as int), rest.deep_view()));
            }
        }
        proof {
            let fv = lists.deep_view()[start as int];
            assert(fv.take(fv.len() as int) =~= fv);
            assert(cart(tail) == cart_combine(fv, rest.deep_view()));
        }
        out
    }
}

/// Extending the right picks by one extends the joined list by one.
proof fn lemma_cart_one_push(s: Seq<char>, rest: Seq<Seq<char>>, j: int)
    requires
        0 < j <= rest.len(),
    ensures
        cart_one(s, rest.take(j)) =~= cart_one(s, rest.take(j - 1)) + seq![
            joined(s, rest[j - 1]),
        ],
    decreases j,
{
    if j == 1 {
        assert(rest.take(1).drop_first() =~= rest.take(0));
    } else {
        assert(rest.take(j)[0] == rest[0]);
        lemma_cart_one_push(s, rest.drop_first(), j - 1);
        assert(rest.drop_first().take(j - 1) =~= rest.take(j).drop_first());
        assert(rest.drop_first().take(j - 2) =~= rest.take(j - 1).drop_first());
        assert(rest.drop_first()[j - 2] == rest[j - 1]);
    }
}


/// Extending the left picks by one appends that pick's joins.
proof fn lemma_cart_combine_take(first: Seq<Seq<char>>, rest: Seq<Seq<char>>, i: int)
    requires
        0 < i <= first.len(),
    ensures
        cart_combine(first.take(i), rest) =~= cart_combine(first.take(i - 1), rest) + cart_one(
            first[i - 1],
            rest,
        ),
    decreases i,
{
    if i == 1 {
        assert(first.take(1).drop_first() =~= first.take(0));
        assert(first.take(1)[0] == first[0]);
        assert(cart_combine(first.take(0), rest) =~= Seq::empty());
    } else {
        assert(first.take(i)[0] == first[0]);
        assert(first.take(i - 1)[0] == first[0]);
        lemma_cart_combine_take(first.drop_first(), rest, i - 1);
        assert(first.drop_first().take(i - 1) =~= first.take(i).drop_first());
        assert(first.drop_first().take(i - 2) =~= first.take(i - 1).drop_first());
        assert(first.drop_first()[i - 2] == first[i - 1]);
    }
}


/// The rendering of the cheapest tree below a group, within the recursion
/// budget: the cheapest member's label, cost and row count, with each child's
/// rendering marked below it.
pub open spec fn cheapest_tree_view(groups: Seq<Group>, gid: int, fuel: nat) -> Seq<char>
    decreases fuel, 1int, 0int,
{
    if fuel == 0 {
        "None"@
    } else {
        match groups[gid].cheapest_logical_expression {
            None => "None"@,
            Some(ch) => crate::planprinter::node_label(ch.op@) + ", Cost "@ + dec_str(
                (match ch.cost {
                    Some(c) => c,
                    None => 0u64,
                }) as nat,
            ) + ", RowCount "@ + dec_str(ch.row_count as nat) + child_renders(
                groups,
                ch.operands@,
                (fuel - 1) as nat,
            ),
        }
    }
}

/// The concatenated child renderings, each behind an arrow marker.
pub open spec fn child_renders(groups: Seq<Group>, ops: Seq<usize>, cfuel: nat) -> Seq<char>
    decreases cfuel, 2int, ops.len(),
{
    if ops.len() == 0 {
        Seq::empty()
    } else {
        child_renders(groups, ops.drop_last(), cfuel) + "\n    -> "@ + cheapest_tree_view(
            groups,
            ops.last() as int,
            cfuel,
        )
    }
}


/// Whether some explored member of the class is a table scan.
pub open spec fn has_scan(eq: Seq<MExpr>) -> bool {
    exists|k: int| 0 <= k < eq.len() && (#[trigger] eq[k]).op@ is TableScan
}

/// The table name of the first table-scan member.
pub open spec fn first_scan_name(eq: Seq<MExpr>) -> Seq<char>
    decreases eq.len(),
{
    if eq.len() == 0 {
        Seq::empty()
    } else {
        match eq[0].op@ {
            crate::plan::PlanV::TableScan { table_name, .. } => table_name,
            _ => first_scan_name(eq.drop_first()),
        }
    }
}

/// A member whose first scan stands behind a scan-free prefix names the
/// whole class.
proof fn lemma_first_scan(eq: Seq<MExpr>, k: int, name: Seq<char>)
    requires
        0 <= k < eq.len(),
        forall|j: int| 0 <= j < k ==> !((#[trigger] eq[j]).op@ is TableScan),
        eq[k].op@ matches crate::plan::PlanV::TableScan { table_name, .. } && table_name == name,
    ensures
        first_scan_name(eq) == name,
    decreases k,
{
    if k > 0 {
        let rest = eq.drop_first();
        assert forall|j: int| 0 <= j < k - 1 implies !((#[trigger] rest[j]).op@ is TableScan) by {
            assert(rest[j] == eq[j + 1]);
        }
        assert(rest[k - 1] == eq[k]);
        lemma_first_scan(rest, k - 1, name);
    }
}

/// The number of distinct trees below a group, within the budget: one tree
/// per choice of an explored member and of a tree for each of its operand
/// groups, all sums and products capped; a class holding a table scan stands
/// for exactly one tree.
pub open spec fn trees_count_view(groups: Seq<Group>, gid: int, fuel: nat) -> u64
    decreases fuel, 3int, 0int,
{
    if fuel == 0 {
        0
    } else {
        let eq = groups[gid].equivalent_logical_mexprs@;
        if has_scan(eq) {
            1
        } else {
            count_members(groups, eq, fuel)
        }
    }
}

/// The capped sum, member by member, of each member's tree product.
pub open spec fn count_members(groups: Seq<Group>, eq: Seq<MExpr>, fuel: nat) -> u64
    decreases fuel, 2int, eq.len(),
{
    if eq.len() == 0 || fuel == 0 {
        0
    } else {
        sat_add(
            member_tree_product(groups, eq[0].operands@, (fuel - 1) as nat),
            count_members(groups, eq.drop_first(), fuel),
        )
    }
}

/// The capped product of the tree counts of the operand groups.
pub open spec fn member_tree_product(groups: Seq<Group>, ops: Seq<usize>, cfuel: nat) -> u64
    decreases cfuel, 3int, ops.len(),
{
    if ops.len() == 0 {
        1
    } else {
        sat_mul(
            member_tree_product(groups, ops.drop_last(), cfuel),
            trees_count_view(groups, ops.last() as int, cfuel),
        )
    }
}

/// Capped addition associates.
proof fn lemma_sat_add_assoc(a: u64, b: u64, c: u64)
    ensures
        sat_add(sat_add(a, b), c) == sat_add(a, sat_add(b, c)),
{
}

/// The renderings of every tree below a group, within the budget: for each
/// explored member, every space-joined combination of its operand groups'
/// trees in parentheses; a class holding a table scan renders as the first
/// scan's table name alone.
pub open spec fn trees_view(groups: Seq<Group>, gid: int, fuel: nat) -> Seq<Seq<char>>
    decreases fuel, 3int, 0int,
{
    if fuel == 0 {
        Seq::empty()
    } else {
        let eq = groups[gid].equivalent_logical_mexprs@;
        if has_scan(eq) {
            seq![first_scan_name(eq)]
        } else {
            trees_members(groups, eq, fuel)
        }
    }
}

/// The renderings contributed by each member in turn.
pub open spec fn trees_members(groups: Seq<Group>, eq: Seq<MExpr>, fuel: nat) -> Seq<Seq<char>>
    decreases fuel, 2int, eq.len(),
{
    if eq.len() == 0 || fuel == 0 {
        Seq::empty()
    } else {
        paren_all(cart(member_tree_lists(groups, eq[0].operands@, (fuel - 1) as nat))
        ) + trees_members(groups, eq.drop_first(), fuel)
    }
}

/// The operand groups' tree lists, in operand order.
pub open spec fn member_tree_lists(groups: Seq<Group>, ops: Seq<usize>, cfuel: nat) -> Seq<
    Seq<Seq<char>>,
>
    decreases cfuel, 3int, ops.len(),
{
    if ops.len() == 0 {
        Seq::empty()
    } else {
        member_tree_lists(groups, ops.drop_last(), cfuel).push(
            trees_view(groups, ops.last() as int, cfuel),
        )
    }
}

/// Each combination wrapped in parentheses.
pub open spec fn paren_all(products: Seq<Seq<char>>) -> Seq<Seq<char>>
    decreases products.len(),
{
    if products.len() == 0 {
        Seq::empty()
    } else {
        paren_all(products.drop_last()).push("("@ + products.last() + ")"@)
    }
}

/// Wrapping keeps the count.
proof fn lemma_paren_all_len(products: Seq<Seq<char>>)
    ensures
        paren_all(products).len() == products.len(),
    decreases products.len(),
{
    if products.len() > 0 {
        lemma_paren_all_len(products.drop_last());
    }
}

/// Renders every tree of equivalent plans below the group, within the given
/// recursion budget; a class holding a table scan renders as the table name
/// alone.
pub fn get_all_possible_trees(groups: &Vec<Group>, gid: usize, fuel: usize) -> (r: Vec<String>)
    requires
        (gid as int) < groups@.len(),
        crate::cascades::groups_members_ok(groups@),
    ensures
        r.deep_view() == trees_view(groups@, gid as int, fuel as nat),
    decreases fuel,
{
    let mut output: Vec<String> = Vec::new();
    if fuel == 0 {
        proof {
            assert(output.deep_view() =~= trees_view(groups@, gid as int, 0));
        }
        return output;
    }
    let g = &groups[gid];
    let ghost eq = g.equivalent_logical_mexprs@;
    let mut k: usize = 0;
    proof {
        assert(eq.skip(0) =~= eq);
        assert(output.deep_view() =~= Seq::<Seq<char>>::empty());
    }
    while k < g.equivalent_logical_mexprs.len()
        invariant
            (gid as int) < groups@.len(),
            g == &groups@[gid as int],
            eq == g.equivalent_logical_mexprs@,
            crate::cascades::groups_members_ok(groups@),
            fuel > 0,
            k <= eq.len(),
            forall|j: int| 0 <= j < k ==> !((#[trigger] eq[j]).op@ is TableScan),
            trees_members(groups@, eq, fuel as nat) == output.deep_view() + trees_members(
                groups@,
                eq.skip(k as int),
                fuel as nat,
            ),
        decreases g.equivalent_logical_mexprs@.len() - k,
    {
        let m = &g.equivalent_logical_mexprs[k];
        match &m.op {
            PlanNode::TableScan { table_name, .. } => {
                let mut only: Vec<String> = Vec::new();
                only.push(table_name.clone());
                proof {
                    assert(eq[k as int].op@ is TableScan);
                    assert(has_scan(eq));
                    lemma_first_scan(eq, k as int, table_name@);
                    assert(only.deep_view() =~= seq![first_scan_name(eq)]);
                }
                return only;
            },
            _ => {},
        }
        let mut lists: Vec<Vec<String>> = Vec::new();
        let mut j: usize = 0;
        proof {
            assert(crate::cascades::group_members_ok(groups@, gid as int));
            assert(m.operands@.take(0) =~= Seq::<usize>::empty());
            assert(lists.deep_view() =~= member_tree_lists(
                groups@,
                m.operands@.take(0),
                (fuel - 1) as nat,
            ));
        }
        while j < m.operands.len()
            invariant
                (gid as int) < groups@.len(),
                g == &groups@[gid as int],
                m == &g.equivalent_logical_mexprs@[k as int],
                0 <= k < g.equivalent_logical_mexprs@.len(),
                crate::cascades::groups_members_ok(groups@),
                ops_in_range(m.operands@, groups@.len()),
                fuel > 0,
                j <= m.operands@.len(),
                lists.deep_view() == member_tree_lists(
                    groups@,
                    m.operands@.take(j as int),
                    (fuel - 1) as nat,
                ),
            decreases m.operands@.len() - j,
        {
            let child = m.operands[j];
            let ghost prelists = lists@;
            let sub = get_all_possible_trees(groups, child, fuel - 1);
            let ghost subdv = sub.deep_view();
            lists.push(sub);
            j = j + 1;
            proof {
                let ops = m.operands@;
                assert(ops.take(j as int).drop_last() =~= ops.take(j as int - 1));
                assert(ops.take(j as int).last() == ops[j as int - 1]);
                assert forall|t2: int|
                    0 <= t2 < lists@.len() implies lists.deep_view()[t2] == member_tree_lists(
                    groups@,
                    ops.take(j as int),
                    (fuel - 1) as nat,
                )[t2] by {
                    assert(lists.deep_view()[t2] == lists@[t2].deep_view());
                    if t2 < prelists.len() {
                        assert(lists@[t2] == prelists[t2]);
                    } else {
                        assert(lists@[t2].deep_view() == subdv);
                    }
                }
                assert(lists.deep_view() =~= member_tree_lists(
                    groups@,
                    ops.take(j as int),
                    (fuel - 1) as nat,
                ));
            }
        }
        proof {
            assert(m.operands@.take(m.operands@.len() as int) =~= m.operands@);
        }
        let products = get_cartesian_product(&lists);
        let ghost prods = products.deep_view();
        let ghost base = output.deep_view();
        let mut t: usize = 0;
        proof {
            assert(prods.take(0) =~= Seq::<Seq<char>>::empty());
            assert(output.deep_view() =~= base + paren_all(prods.take(0)));
        }
        while t < products.len()
            invariant
                t <= products@.len(),
                prods == products.deep_view(),
                output.deep_view() == base + paren_all(prods.take(t as int)),
            decreases products@.len() - t,
        {
            let mut line = String::from_str("(");
            line.append(products[t].as_str());
            line.append(")");
            let ghost linev = line@;
            let ghost preout = output@;
            let ghost predv = output.deep_view();
            output.push(line);
            t = t + 1;
            proof {
                assert(prods.take(t as int).drop_last() =~= prods.take(t as int - 1));
                assert(prods.take(t as int).last() == prods[t as int - 1]);
                lemma_paren_all_len(prods.take(t as int));
                lemma_paren_all_len(prods.take(t as int - 1));
                assert(linev =~= "("@ + prods[t as int - 1] + ")"@);
                assert forall|t2: int|
                    0 <= t2 < output@.len() implies output.deep_view()[t2] == (base + paren_all(
                    prods.take(t as int),
                ))[t2] by {
                    assert(output.deep_view()[t2] == output@[t2]@);
                    if t2 < preout.len() {
                        assert(output@[t2] == preout[t2]);
                        assert(predv[t2] == preout[t2]@);
                        assert(predv[t2] == (base + paren_all(prods.take(t as int - 1)))[t2]);
                        assert((base + paren_all(prods.take(t as int)))[t2] == (base + paren_all(
                            prods.take(t as int - 1),
                        ))[t2]);
                    } else {
                        assert(output@[t2]@ == linev);
                        assert((base + paren_all(prods.take(t as int)))[t2] == paren_all(
                            prods.take(t as int),
                        )[t as int - 1]);
                    }
                }
                assert(output.deep_view() =~= base + paren_all(prods.take(t as int)));
            }
        }
        proof {
            assert(prods.take(prods.len() as int) =~= prods);
            assert(eq.skip(k as int).drop_first() =~= eq.skip(k as int + 1));
            assert(eq.skip(k as int)[0] == eq[k as int]);
            assert(output.deep_view() + trees_members(groups@, eq.skip(k as int + 1), fuel as nat)
                =~= trees_members(groups@, eq, fuel as nat));
        }
        k = k + 1;
    }
    proof {
        assert(eq.skip(eq.len() as int) =~= Seq::<MExpr>::empty());
        assert(eq.take(eq.len() as int) =~= eq);
        assert(!has_scan(eq));
        assert(output.deep_view() =~= trees_view(groups@, gid as int, fuel as nat));
    }
    output
}

/// Counts the trees of equivalent plans below the group, within the given
/// recursion budget.
pub fn get_all_possible_trees_count(groups: &Vec<Group>, gid: usize, fuel: usize) -> (r: u64)
    requires
        (gid as int) < groups@.len(),
        crate::cascades::groups_members_ok(groups@),
    ensures
        r == trees_count_view(groups@, gid as int, fuel as nat),
    decreases fuel,
{
    if fuel == 0 {
        return 0;
    }
    let g = &groups[gid];
    let ghost eq = g.equivalent_logical_mexprs@;
    let mut output: u64 = 0;
    let mut k: usize = 0;
    proof {
        assert(eq.skip(0) =~= eq);
    }
    while k < g.equivalent_logical_mexprs.len()
        invariant
            (gid as int) < groups@.len(),
            g == &groups@[gid as int],
            eq == g.equivalent_logical_mexprs@,
            crate::cascades::groups_members_ok(groups@),
            fuel > 0,
            k <= eq.len(),
            forall|j: int| 0 <= j < k ==> !((#[trigger] eq[j]).op@ is TableScan),
            count_members(groups@, eq, fuel as nat) == sat_add(
                output,
                count_members(groups@, eq.skip(k as int), fuel as nat),
            ),
        decreases g.equivalent_logical_mexprs@.len() - k,
    {
        let m = &g.equivalent_logical_mexprs[k];
        match &m.op {
            PlanNode::TableScan { .. } => {
                proof {
                    assert(eq[k as int].op@ is TableScan);
                    assert(has_scan(eq));
                }
                return 1;
            },
            _ => {},
        }
        proof {
            assert(crate::cascades::group_members_ok(groups@, gid as int));
        }
        let mut tree_count: u64 = 1;
        let mut j: usize = 0;
        proof {
            assert(m.operands@.take(0) =~= Seq::<usize>::empty());
        }
        while j < m.operands.len()
            invariant
                (gid as int) < groups@.len(),
                g == &groups@[gid as int],
                m == &g.equivalent_logical_mexprs@[k as int],
                0 <= k < g.equivalent_logical_mexprs@.len(),
                crate::cascades::groups_members_ok(groups@),
                ops_in_range(m.operands@, groups@.len()),
                fuel > 0,
                j <= m.operands@.len(),
                tree_count == member_tree_product(
                    groups@,
                    m.operands@.take(j as int),
                    (fuel - 1) as nat,
                ),
            decreases m.operands@.len() - j,
        {
            let child = m.operands[j];
            tree_count = mul_sat(tree_count, get_all_possible_trees_count(groups, child, fuel - 1));
            j = j + 1;
            proof {
                assert(m.operands@.take(j as int).drop_last() =~= m.operands@.take(j as int - 1));
                assert(m.operands@.take(j as int).last() == m.operands@[j as int - 1]);
            }
        }
        proof {
            assert(m.operands@.take(m.operands@.len() as int) =~= m.operands@);
            assert(eq.skip(k as int).drop_first() =~= eq.skip(k as int + 1));
            assert(eq.skip(k as int)[0] == eq[k as int]);
            lemma_sat_add_assoc(
                output,
                tree_count,
                count_members(groups@, eq.skip(k as int + 1), fuel as nat),
            );
        }
        output = add_sat(output, tree_count);
        k = k + 1;
    }
    proof {
        assert(eq.skip(eq.len() as int) =~= Seq::<MExpr>::empty());
        assert(eq.take(eq.len() as int) =~= eq);
        assert(!has_scan(eq));
    }
    output
}

/// Renders the cheapest tree below the group: each level prints its cheapest
/// member's label, cost and row count, with children marked below it.
pub fn get_cheapest_tree(groups: &Vec<Group>, gid: usize, fuel: usize) -> (r: String)
    requires
        (gid as int) < groups@.len(),
        crate::cascades::groups_members_ok(groups@),
    ensures
        r@ == cheapest_tree_view(groups@, gid as int, fuel as nat),
    decreases fuel,
{
    proof {
        reveal_strlit("None");
    }
    if fuel == 0 {
        return String::from_str("None");
    }
    let g = &groups[gid];
    match &g.cheapest_logical_expression {
        None => String::from_str("None"),
        Some(cheapest) => {
            proof {
                assert(crate::cascades::group_members_ok(groups@, gid as int));
            }
            let mut result = cheapest.op.label();
            result.append(", Cost ");
            let c = match cheapest.cost {
                Some(c) => c,
                None => 0,
            };
            let cs = u64_to_dec(c);
            result.append(cs.as_str());
            result.append(", RowCount ");
            let rs = u64_to_dec(cheapest.row_count);
            result.append(rs.as_str());
            let ghost header = result@;
            let ghost spec_header = crate::planprinter::node_label(cheapest.op@) + ", Cost "@
                + dec_str(c as nat) + ", RowCount "@ + dec_str(cheapest.row_count as nat);
            proof {
                assert(header =~= spec_header);
            }
            let mut j: usize = 0;
            proof {
                assert(cheapest.operands@.take(0) =~= Seq::<usize>::empty());
            }
            while j < cheapest.operands.len()
                invariant
                    (gid as int) < groups@.len(),
                    g == &groups@[gid as int],
                    g.cheapest_logical_expression matches Some(ch) && ch == *cheapest,
                    crate::cascades::groups_members_ok(groups@),
                    ops_in_range(cheapest.operands@, groups@.len()),
                    fuel > 0,
                    j <= cheapest.operands@.len(),
                    result@ == header + child_renders(
                        groups@,
                        cheapest.operands@.take(j as int),
                        (fuel - 1) as nat,
                    ),
                decreases cheapest.operands@.len() - j,
            {
                let child = cheapest.operands[j];
                let sub = get_cheapest_tree(groups, child, fuel - 1);
                result.append("\n    -> ");
                result.append(sub.as_str());
                j = j + 1;
                proof {
                    let ops = cheapest.operands@;
                    assert(ops.take(j as int).drop_last() =~= ops.take(j as int - 1));
                    assert(ops.take(j as int).last() == ops[j as int - 1]);
                    assert(result@ =~= header + child_renders(
                        groups@,
                        ops.take(j as int),
                        (fuel - 1) as nat,
                    ));
                }
            }
            proof {
                assert(cheapest.operands@.take(cheapest.operands@.len() as int)
                    =~= cheapest.operands@);
                let children = child_renders(groups@, cheapest.operands@, (fuel - 1) as nat);
                assert(fuel as nat != 0);
                assert(groups@[gid as int].cheapest_logical_expression == Some(*cheapest));
                assert(cheapest_tree_view(groups@, gid as int, fuel as nat) == spec_header
                    + children);
                assert(result@ == header + child_renders(
                    groups@,
                    cheapest.operands@.take(cheapest.operands@.len() as int),
                    (fuel - 1) as nat,
                ));
                assert(child_renders(
                    groups@,
                    cheapest.operands@.take(cheapest.operands@.len() as int),
                    (fuel - 1) as nat,
                ) == children);
                assert(header == spec_header);
                assert(result@ == spec_header + children);
            }
            result
        },
    }
}

} // verus!
