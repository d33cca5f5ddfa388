//! Union-find over expressions and transitive equality inference.

use vstd::prelude::*;
use crate::expr::{ScalarExpr, ExprV};
pub use crate::expr::flip_equality;

verus! {

/// The equivalence closure of a list of index pairs: the least equivalence
/// relation that relates the two ends of every listed pair.
pub open spec fn linked(edges: Seq<(int, int)>, x: int, y: int) -> bool
    decreases edges.len(),
{
    if edges.len() == 0 {
        x == y
    } else {
        let a = edges.last().0;
        let b = edges.last().1;
        let rest = edges.drop_last();
        linked(rest, x, y) || (linked(rest, x, a) && linked(rest, b, y)) || (linked(rest, x, b)
            && linked(rest, a, y))
    }
}

/// The closure over index pairs is reflexive, symmetric and transitive.
pub proof fn lemma_linked_equivalence(edges: Seq<(int, int)>)
    ensures
        forall|x: int| #[trigger] linked(edges, x, x),
        forall|x: int, y: int| #[trigger] linked(edges, x, y) ==> linked(edges, y, x),
        forall|x: int, y: int, z: int|
            #![trigger linked(edges, x, y), linked(edges, y, z)]
            linked(edges, x, y) && linked(edges, y, z) ==> linked(edges, x, z),
    decreases edges.len(),
{
    if edges.len() > 0 {
        let rest = edges.drop_last();
        let a = edges.last().0;
        let b = edges.last().1;
        lemma_linked_equivalence(rest);
        assert forall|x: int| #[trigger] linked(edges, x, x) by {
            assert(linked(rest, x, x));
        }
        assert forall|x: int, y: int| #[trigger] linked(edges, x, y) implies linked(
            edges,
            y,
            x,
        ) by {
            if linked(rest, x, y) {
                assert(linked(rest, y, x));
            } else if linked(rest, x, a) && linked(rest, b, y) {
                assert(linked(rest, y, b) && linked(rest, a, x));
            } else {
                assert(linked(rest, x, b) && linked(rest, a, y));
                assert(linked(rest, y, a) && linked(rest, b, x));
            }
        }
        assert forall|x: int, y: int, z: int|
            #![trigger linked(edges, x, y), linked(edges, y, z)]
            linked(edges, x, y) && linked(edges, y, z) implies linked(edges, x, z) by {
            if linked(rest, x, y) {
                if linked(rest, y, z) {
                    assert(linked(rest, x, z));
                } else if linked(rest, y, a) && linked(rest, b, z) {
                    assert(linked(rest, x, a));
                } else {
                    assert(linked(rest, y, b) && linked(rest, a, z));
                    assert(linked(rest, x, b));
                }
            } else if linked(rest, x, a) && linked(rest, b, y) {
                if linked(rest, y, z) {
                    assert(linked(rest, b, z));
                } else if linked(rest, y, a) && linked(rest, b, z) {
                    assert(linked(rest, b, a));
                    assert(linked(rest, x, b));
                    assert(linked(rest, x, z));
                } else {
                    assert(linked(rest, y, b) && linked(rest, a, z));
                    assert(linked(rest, x, a) && linked(rest, a, z));
                    assert(linked(rest, x, z));
                }
            } else {
                assert(linked(rest, x, b) && linked(rest, a, y));
                if linked(rest, y, z) {
                    assert(linked(rest, a, z));
                } else if linked(rest, y, a) && linked(rest, b, z) {
                    assert(linked(rest, x, b) && linked(rest, b, z));
                    assert(linked(rest, x, z));
                } else {
                    assert(linked(rest, y, b) && linked(rest, a, z));
                    assert(linked(rest, a, b));
                    assert(linked(rest, x, b) && linked(rest, b, a));
                    assert(linked(rest, x, a));
                    assert(linked(rest, x, z));
                }
            }
        }
    }
}

/// The root that a parent table leads an index to, following parents that
/// strictly decrease until a fixed point.
pub open spec fn root_of(p: Seq<usize>, i: int) -> int
    decreases (if 0 <= i {
        i
    } else {
        0
    }),
{
    if 0 <= i < p.len() && (p[i] as int) < i {
        root_of(p, p[i] as int)
    } else {
        i
    }
}

/// Whether every parent entry points at or below its own index.
pub open spec fn parents_decrease(p: Seq<usize>) -> bool {
    forall|i: int| 0 <= i < p.len() ==> (p[i] as int) <= i
}

/// In a decreasing parent table, every index leads to a root at or below it,
/// and the root is its own parent.
pub proof fn lemma_root_props(p: Seq<usize>, i: int)
    requires
        parents_decrease(p),
        0 <= i < p.len(),
    ensures
        0 <= root_of(p, i) <= i,
        p[root_of(p, i)] as int == root_of(p, i),
    decreases i,
{
    if (p[i] as int) < i {
        lemma_root_props(p, p[i] as int);
    }
}

/// Repointing one root at another maps every index's root through the
/// replacement.
pub proof fn lemma_root_update(p: Seq<usize>, rc: int, rn: usize, i: int)
    requires
        parents_decrease(p),
        0 <= rc < p.len(),
        p[rc] as int == rc,
        (rn as int) < rc,
        p[rn as int] == rn,
        0 <= i < p.len(),
    ensures
        root_of(p.update(rc, rn), i) == if root_of(p, i) == rc {
            rn as int
        } else {
            root_of(p, i)
        },
    decreases i,
{
    let q = p.update(rc, rn);
    if i == rc {
        assert(root_of(q, i) == root_of(q, rn as int));
        assert(root_of(q, rn as int) == rn as int);
    } else if (p[i] as int) < i {
        lemma_root_update(p, rc, rn, p[i] as int);
        assert(root_of(q, i) == root_of(q, p[i] as int));
    }
}

/// Union-find over dense indices, with the pairs it was built from kept as
/// its mathematical history.
pub struct UnionFind {
    pub parent: Vec<usize>,
    pub history: Ghost<Seq<(int, int)>>,
}

impl UnionFind {
    /// The pairs this structure was asked to union, in order.
    pub open spec fn edges(self) -> Seq<(int, int)> {
        self.history@
    }

    /// The number of indices in play.
    pub open spec fn spec_len(self) -> nat {
        self.parent@.len()
    }

    /// The root representative of an index's class.
    pub open spec fn spec_root(self, i: int) -> int {
        root_of(self.parent@, i)
    }

    /// Whether two indices sit in the same class.
    pub open spec fn same_class(self, i: int, j: int) -> bool {
        self.spec_root(i) == self.spec_root(j)
    }

    /// The structure is consistent: parents decrease, every recorded pair is
    /// in range, and two indices share a root exactly when the recorded pairs
    /// connect them.
    pub open spec fn wf(self) -> bool {
        &&& parents_decrease(self.parent@)
        &&& forall|k: int|
            0 <= k < self.edges().len() ==> 0 <= (#[trigger] self.edges()[k]).0
                < self.spec_len() && 0 <= self.edges()[k].1 < self.spec_len()
        &&& forall|i: int, j: int|
            0 <= i < self.spec_len() && 0 <= j < self.spec_len() ==> (#[trigger] self.same_class(
                i,
                j,
            ) <==> linked(self.edges(), i, j))
    }

    /// A fresh structure over `n` indices, each its own class.
    pub fn new(n: usize) -> (r: UnionFind)
        ensures
            r.wf(),
            r.spec_len() == n,
            r.edges() == Seq::<(int, int)>::empty(),
    {
        let mut parent: Vec<usize> = Vec::new();
        let mut i: usize = 0;
        while i < n
            invariant
                i <= n,
                parent@.len() == i,
                forall|j: int| 0 <= j < i ==> parent@[j] == j,
            decreases n - i,
        {
            parent.push(i);
            i = i + 1;
        }
        let r = UnionFind { parent, history: Ghost(Seq::empty()) };
        proof {
            assert forall|a: int, b: int|
                0 <= a < r.spec_len() && 0 <= b < r.spec_len() implies (r.same_class(a, b) <==> linked(
                r.edges(),
                a,
                b,
            )) by {
                assert(root_of(r.parent@, a) == a);
                assert(root_of(r.parent@, b) == b);
            }
        }
        r
    }

    /// The number of indices in play.
    pub fn len(&self) -> (n: usize)
        ensures
            n == self.spec_len(),
    {
        self.parent.len()
    }

    /// Finds the root representative of the class containing `i`.
    pub fn find(&self, i: usize) -> (r: usize)
        requires
            self.wf(),
            i < self.spec_len(),
        ensures
            r as int == self.spec_root(i as int),
            r < self.spec_len(),
    {
        let mut x = i;
        while self.parent[x] != x
            invariant
                x < self.spec_len(),
                self.wf(),
                root_of(self.parent@, x as int) == self.spec_root(i as int),
            decreases x,
        {
            proof {
                assert(self.parent@[x as int] as int <= x as int);
            }
            x = self.parent[x];
        }
        x
    }

    /// Unions the classes containing `a` and `b`, recording the pair.
    pub fn union(&mut self, a: usize, b: usize)
        requires
            old(self).wf(),
            a < old(self).spec_len(),
            b < old(self).spec_len(),
        ensures
            final(self).wf(),
            final(self).spec_len() == old(self).spec_len(),
            final(self).edges() == old(self).edges().push((a as int, b as int)),
    {
        let ra = self.find(a);
        let rb = self.find(b);
        let ghost oldp = self.parent@;
        let ghost olde = self.edges();
        let ghost newe = olde.push((a as int, b as int));
        proof {
            lemma_linked_equivalence(olde);
            lemma_linked_equivalence(newe);
            assert(newe.drop_last() =~= olde);
            lemma_root_props(oldp, a as int);
            lemma_root_props(oldp, b as int);
        }
        if ra < rb {
            self.parent.set(rb, ra);
        } else if rb < ra {
            self.parent.set(ra, rb);
        }
        self.history = Ghost(newe);
        proof {
            let p = self.parent@;
            assert forall|i: int, j: int|
                0 <= i < self.spec_len() && 0 <= j < self.spec_len() implies (self.same_class(i, j)
                <==> linked(newe, i, j)) by {
                lemma_root_props(oldp, i);
                lemma_root_props(oldp, j);
                assert(old(self).same_class(i, j) <==> linked(olde, i, j));
                assert(old(self).same_class(i, a as int) <==> linked(olde, i, a as int));
                assert(old(self).same_class(i, b as int) <==> linked(olde, i, b as int));
                assert(old(self).same_class(a as int, j) <==> linked(olde, a as int, j));
                assert(old(self).same_class(b as int, j) <==> linked(olde, b as int, j));
                assert(root_of(oldp, a as int) == ra as int);
                assert(root_of(oldp, b as int) == rb as int);
                assert(linked(newe, i, j) == (linked(olde, i, j) || (linked(olde, i, a as int)
                    && linked(olde, b as int, j)) || (linked(olde, i, b as int) && linked(
                    olde,
                    a as int,
                    j,
                ))));
                if ra < rb {
                    assert(p =~= oldp.update(rb as int, ra));
                    lemma_root_update(oldp, rb as int, ra, i);
                    lemma_root_update(oldp, rb as int, ra, j);
                } else if rb < ra {
                    assert(p =~= oldp.update(ra as int, rb));
                    lemma_root_update(oldp, ra as int, rb, i);
                    lemma_root_update(oldp, ra as int, rb, j);
                } else {
                    assert(p =~= oldp);
                }
            }
        }
    }
}

/// The equivalence closure of the binary equalities among a list of
/// predicates: the least relation that relates the two sides of every
/// equality conjunct and ignores every other predicate.
pub open spec fn connected(preds: Seq<ExprV>, x: ExprV, y: ExprV) -> bool
    decreases preds.len(),
{
    if preds.len() == 0 {
        x == y
    } else {
        let rest = preds.drop_last();
        match preds.last() {
            ExprV::Eq(l, r) => connected(rest, x, y) || (connected(rest, x, *l) && connected(
                rest,
                *r,
                y,
            )) || (connected(rest, x, *r) && connected(rest, *l, y)),
            _ => connected(rest, x, y),
        }
    }
}

/// The closure over predicates is reflexive, symmetric and transitive.
pub proof fn lemma_connected_equivalence(preds: Seq<ExprV>)
    ensures
        forall|x: ExprV| #[trigger] connected(preds, x, x),
        forall|x: ExprV, y: ExprV| #[trigger] connected(preds, x, y) ==> connected(preds, y, x),
        forall|x: ExprV, y: ExprV, z: ExprV|
            #![trigger connected(preds, x, y), connected(preds, y, z)]
            connected(preds, x, y) && connected(preds, y, z) ==> connected(preds, x, z),
    decreases preds.len(),
{
    if preds.len() > 0 {
        let rest = preds.drop_last();
        lemma_connected_equivalence(rest);
        if preds.last() is Eq {
            let a = *preds.last()->Eq_0;
            let b = *preds.last()->Eq_1;
            assert forall|x: ExprV| #[trigger] connected(preds, x, x) by {
                assert(connected(rest, x, x));
            }
            assert forall|x: ExprV, y: ExprV| #[trigger] connected(preds, x, y) implies connected(
                preds,
                y,
                x,
            ) by {
                if connected(rest, x, y) {
                    assert(connected(rest, y, x));
                } else if connected(rest, x, a) && connected(rest, b, y) {
                    assert(connected(rest, y, b) && connected(rest, a, x));
                } else {
                    assert(connected(rest, x, b) && connected(rest, a, y));
                    assert(connected(rest, y, a) && connected(rest, b, x));
                    assert(connected(rest, y, a) && connected(rest, b, x) ==> connected(
                        preds,
                        y,
                        x,
                    ));
                }
            }
            assert forall|x: ExprV, y: ExprV, z: ExprV|
                #![trigger connected(preds, x, y), connected(preds, y, z)]
                connected(preds, x, y) && connected(preds, y, z) implies connected(
                preds,
                x,
                z,
            ) by {
                if connected(rest, x, y) {
                    if connected(rest, y, z) {
                        assert(connected(rest, x, z));
                    } else if connected(rest, y, a) && connected(rest, b, z) {
                        assert(connected(rest, x, a));
                    } else {
                        assert(connected(rest, y, b) && connected(rest, a, z));
                        assert(connected(rest, x, b));
                    }
                } else if connected(rest, x, a) && connected(rest, b, y) {
                    if connected(rest, y, z) {
                        assert(connected(rest, b, z));
                    } else if connected(rest, y, a) && connected(rest, b, z) {
                        assert(connected(rest, b, a));
                        assert(connected(rest, x, b));
                        assert(connected(rest, x, z));
                    } else {
                        assert(connected(rest, y, b) && connected(rest, a, z));
                        assert(connected(rest, x, a) && connected(rest, a, z));
                        assert(connected(rest, x, z));
                    }
                } else {
                    assert(connected(rest, x, b) && connected(rest, a, y));
                    if connected(rest, y, z) {
                        assert(connected(rest, a, z));
                    } else if connected(rest, y, a) && connected(rest, b, z) {
                        assert(connected(rest, x, b) && connected(rest, b, z));
                        assert(connected(rest, x, z));
                    } else {
                        assert(connected(rest, y, b) && connected(rest, a, z));
                        assert(connected(rest, a, b));
                        assert(connected(rest, x, b) && connected(rest, b, a));
                        assert(connected(rest, x, a));
                        assert(connected(rest, x, z));
                    }
                }
            }
        } else {
            assert forall|x: ExprV| #[trigger] connected(preds, x, x) by {
                assert(connected(rest, x, x));
            }
            assert forall|x: ExprV, y: ExprV| #[trigger] connected(preds, x, y) implies connected(
                preds,
                y,
                x,
            ) by {
                assert(connected(rest, x, y));
                assert(connected(rest, y, x));
            }
            assert forall|x: ExprV, y: ExprV, z: ExprV|
                #![trigger connected(preds, x, y), connected(preds, y, z)]
                connected(preds, x, y) && connected(preds, y, z) implies connected(
                preds,
                x,
                z,
            ) by {
                assert(connected(rest, x, y) && connected(rest, y, z));
                assert(connected(rest, x, z));
            }
        }
    }
}

/// Whether the predicate is a binary equality with `x` on one side.
pub open spec fn eq_mentions(e: ExprV, x: ExprV) -> bool {
    e matches ExprV::Eq(l, r) && (*l == x || *r == x)
}

/// Whether `x` stands on a side of some equality conjunct among the
/// predicates.
pub open spec fn occurs(preds: Seq<ExprV>, x: ExprV) -> bool {
    exists|k: int| 0 <= k < preds.len() && eq_mentions(#[trigger] preds[k], x)
}

/// Whether the predicates contain the equality of `x` and `y`, written in
/// either direction.
pub open spec fn has_eq_mod_flip(preds: Seq<ExprV>, x: ExprV, y: ExprV) -> bool {
    exists|k: int|
        0 <= k < preds.len() && (#[trigger] preds[k] == ExprV::Eq(Box::new(x), Box::new(y))
            || preds[k] == ExprV::Eq(Box::new(y), Box::new(x)))
}

/// Whether a list of expressions holds pairwise distinct images.
pub open spec fn distinct_views(s: Seq<ScalarExpr>) -> bool {
    forall|i: int, j: int| 0 <= i < j < s.len() ==> s[i]@ != s[j]@
}

/// What one inferred equality promises: a new, nontrivial equality between
/// sides that occur among the input equalities and are connected by them.
pub open spec fn infer_out_ok(preds: Seq<ExprV>, e: ExprV) -> bool {
    e matches ExprV::Eq(l, r) && occurs(preds, *l) && occurs(preds, *r) && *l != *r && connected(
        preds,
        *l,
        *r,
    ) && !has_eq_mod_flip(preds, *l, *r)
}

/// Whether two expressions are the same equality, written in either
/// direction.
pub open spec fn same_eq_mod_flip(a: ExprV, b: ExprV) -> bool {
    a == b || (a matches ExprV::Eq(l, r) && b == ExprV::Eq(r, l))
}

/// What equality inference promises: every returned expression is a new,
/// nontrivial equality between connected sides of the input, every such
/// equality is returned in one direction or the other, and no equality is
/// returned twice, even flipped.
pub open spec fn infer_post(preds: Seq<ExprV>, out: Seq<ExprV>) -> bool {
    &&& forall|k: int| 0 <= k < out.len() ==> infer_out_ok(preds, #[trigger] out[k])
    &&& forall|x: ExprV, y: ExprV|
        #![trigger occurs(preds, x), occurs(preds, y)]
        occurs(preds, x) && occurs(preds, y) && x != y && connected(preds, x, y)
            && !has_eq_mod_flip(preds, x, y) ==> has_eq_mod_flip(out, x, y)
    &&& forall|t1: int, t2: int|
        #![trigger out[t1], out[t2]]
        0 <= t1 < t2 < out.len() ==> !same_eq_mod_flip(out[t1], out[t2])
}

/// Finds or adds the expression among the interned items, keeping one slot
/// per distinct image.
fn intern_item(items: &mut Vec<ScalarExpr>, e: &ScalarExpr)
    requires
        distinct_views(old(items)@),
    ensures
        view_items(final(items)@) == add_item(view_items(old(items)@), e@),
        distinct_views(final(items)@),
        old(items)@.len() <= final(items)@.len() <= old(items)@.len() + 1,
        forall|i: int| 0 <= i < old(items)@.len() ==> final(items)@[i] == old(items)@[i],
        exists|i: int| 0 <= i < final(items)@.len() && final(items)@[i]@ == e@,
        forall|i: int| 0 <= i < final(items)@.len() ==> (final(items)@[i]@ == e@ || exists|j: int|
            0 <= j < old(items)@.len() && old(items)@[j]@ == final(items)@[i]@),
{
    let mut i: usize = 0;
    while i < items.len()
        invariant
            i <= items@.len(),
            forall|j: int| 0 <= j < i ==> items@[j]@ != e@,
        decreases items@.len() - i,
    {
        if items[i].eq_expr(e) {
            proof {
                let t = i as int;
                assert(0 <= t < items@.len() && items@[t]@ == e@);
                assert(view_items(items@)[t] == e@);
                assert(view_items(items@).contains(e@));
                assert(view_items(items@) =~= add_item(view_items(items@), e@));
            }
            return ;
        }
        i = i + 1;
    }
    let ghost pre = items@;
    proof {
        if view_items(pre).contains(e@) {
            let t = choose|t: int|
                0 <= t < view_items(pre).len() && view_items(pre)[t] == e@;
            assert(pre[t]@ == e@);
            assert(false);
        }
    }
    items.push(e.clone_expr());
    proof {
        let t = items@.len() - 1;
        assert(items@[t]@ == e@);
        assert(view_items(items@) =~= view_items(pre).push(e@));
        assert forall|a: int, b: int| 0 <= a < b < items@.len() implies items@[a]@ != items@[b]@ by {
            if b < pre.len() {
                assert(items@[a] == pre[a] && items@[b] == pre[b]);
            } else {
                assert(items@[b]@ == e@);
                assert(items@[a] == pre[a]);
            }
        }
    }
}

/// Finds the slot holding the expression's image.
fn index_of(items: &Vec<ScalarExpr>, e: &ScalarExpr) -> (idx: usize)
    requires
        exists|i: int| 0 <= i < items@.len() && items@[i]@ == e@,
    ensures
        (idx as int) < items@.len(),
        items@[idx as int]@ == e@,
{
    let mut i: usize = 0;
    while i < items.len()
        invariant
            i <= items@.len(),
            forall|j: int| 0 <= j < i ==> items@[j]@ != e@,
            exists|t: int| 0 <= t < items@.len() && items@[t]@ == e@,
        decreases items@.len() - i,
    {
        if items[i].eq_expr(e) {
            return i;
        }
        i = i + 1;
    }
    proof {
        assert(false);
    }
    0
}

/// Decides whether the list holds the equality of the two expressions, in
/// either direction.
pub fn contains_eq_mod_flip(preds: &Vec<ScalarExpr>, x: &ScalarExpr, y: &ScalarExpr) -> (r: bool)
    ensures
        r == has_eq_mod_flip(preds.deep_view(), x@, y@),
{
    let mut k: usize = 0;
    while k < preds.len()
        invariant
            k <= preds@.len(),
            forall|t: int|
                0 <= t < k ==> !(#[trigger] preds.deep_view()[t] == ExprV::Eq(
                    Box::new(x@),
                    Box::new(y@),
                ) || preds.deep_view()[t] == ExprV::Eq(Box::new(y@), Box::new(x@))),
        decreases preds@.len() - k,
    {
        let p = &preds[k];
        proof {
            assert(preds.deep_view()[k as int] == p@);
        }
        match p {
            ScalarExpr::Eq(l, r) => {
                if (l.eq_expr(x) && r.eq_expr(y)) || (l.eq_expr(y) && r.eq_expr(x)) {
                    proof {
                        assert(p@ == ExprV::Eq(Box::new(x@), Box::new(y@)) || p@ == ExprV::Eq(
                            Box::new(y@),
                            Box::new(x@),
                        ));
                    }
                    return true;
                }
            },
            _ => {},
        }
        k = k + 1;
    }
    false
}

/// Infers the transitive equalities that follow from the input equalities but
/// are not already among them: all pairwise equalities within each
/// equivalence class, minus the input, treating a flipped equality as the
/// same equality written the other way.
pub fn infer_equalities(equalities: &Vec<ScalarExpr>) -> (out: Vec<ScalarExpr>)
    ensures
        infer_post(equalities.deep_view(), out.deep_view()),
{
    let ghost preds = equalities.deep_view();
    let mut items: Vec<ScalarExpr> = Vec::new();
    let mut k: usize = 0;
    while k < equalities.len()
        invariant
            k <= equalities@.len(),
            preds == equalities.deep_view(),
            distinct_views(items@),
            forall|i: int|
                0 <= i < items@.len() ==> occurs(preds.take(k as int), #[trigger] items@[i]@),
            forall|x: ExprV|
                #[trigger] occurs(preds.take(k as int), x) ==> exists|i: int|
                    0 <= i < items@.len() && items@[i]@ == x,
        decreases equalities@.len() - k,
    {
        let ghost pk = preds.take(k as int);
        let ghost pk1 = preds.take(k as int + 1);
        proof {
            assert(pk1.drop_last() =~= pk);
            assert(pk1.last() == preds[k as int]);
        }
        let e = &equalities[k];
        proof {
            assert(preds[k as int] == e@);
        }
        let ghost olditems = items@;
        match e {
            ScalarExpr::Eq(l, r) => {
                intern_item(&mut items, l);
                intern_item(&mut items, r);
            },
            _ => {},
        }
        proof {
            assert forall|i: int|
                0 <= i < items@.len() implies occurs(pk1, #[trigger] items@[i]@) by {
                if exists|j: int| 0 <= j < olditems.len() && olditems[j]@ == items@[i]@ {
                    let j = choose|j: int| 0 <= j < olditems.len() && olditems[j]@ == items@[i]@;
                    assert(occurs(pk, olditems[j]@));
                    let t = choose|t: int| 0 <= t < pk.len() && eq_mentions(pk[t], olditems[j]@);
                    assert(eq_mentions(pk1[t], items@[i]@));
                } else {
                    match e {
                        ScalarExpr::Eq(l, r) => {
                            assert(items@[i]@ == (**l)@ || items@[i]@ == (**r)@);
                            assert(pk1.last() == ExprV::Eq(Box::new((**l)@), Box::new((**r)@)));
                            assert(eq_mentions(pk1[k as int], items@[i]@));
                        },
                        _ => {
                            assert(false);
                        },
                    }
                }
            }
            assert forall|x: ExprV| #[trigger] occurs(pk1, x) implies exists|i: int|
                0 <= i < items@.len() && items@[i]@ == x by {
                let t = choose|t: int| 0 <= t < pk1.len() && eq_mentions(pk1[t], x);
                if t < k as int {
                    assert(eq_mentions(pk[t], x));
                    assert(occurs(pk, x));
                    let j = choose|j: int| 0 <= j < olditems.len() && olditems[j]@ == x;
                    assert(items@[j]@ == x);
                } else {
                    match e {
                        ScalarExpr::Eq(l, r) => {
                            assert(x == (**l)@ || x == (**r)@);
                        },
                        _ => {
                            assert(!eq_mentions(pk1[t], x));
                        },
                    }
                }
            }
        }
        k = k + 1;
    }
    proof {
        assert(preds.take(equalities@.len() as int) =~= preds);
    }
    let n = items.len();
    let mut uf = UnionFind::new(n);
    let mut k2: usize = 0;
    while k2 < equalities.len()
        invariant
            k2 <= equalities@.len(),
            preds == equalities.deep_view(),
            n == items@.len(),
            uf.spec_len() == n,
            uf.wf(),
            distinct_views(items@),
            forall|i: int| 0 <= i < items@.len() ==> occurs(preds, #[trigger] items@[i]@),
            forall|x: ExprV|
                #[trigger] occurs(preds, x) ==> exists|i: int|
                    0 <= i < items@.len() && items@[i]@ == x,
            forall|i: int, j: int|
                0 <= i < n && 0 <= j < n ==> (#[trigger] uf.same_class(i, j) <==> connected(
                    preds.take(k2 as int),
                    items@[i]@,
                    items@[j]@,
                )),
        decreases equalities@.len() - k2,
    {
        let ghost pk = preds.take(k2 as int);
        let ghost pk1 = preds.take(k2 as int + 1);
        proof {
            assert(pk1.drop_last() =~= pk);
            assert(pk1.last() == preds[k2 as int]);
        }
        let e = &equalities[k2];
        proof {
            assert(preds[k2 as int] == e@);
        }
        match e {
            ScalarExpr::Eq(l, r) => {
                let ghost lv = (**l)@;
                let ghost rv = (**r)@;
                proof {
                    assert(eq_mentions(preds[k2 as int], lv));
                    assert(occurs(preds, lv));
                    assert(eq_mentions(preds[k2 as int], rv));
                    assert(occurs(preds, rv));
                }
                let il = index_of(&items, l);
                let ir = index_of(&items, r);
                let ghost olduf = uf;
                uf.union(il, ir);
                proof {
                    let olde = olduf.edges();
                    let newe = uf.edges();
                    assert(newe.drop_last() =~= olde);
                    assert forall|i: int, j: int|
                        0 <= i < n && 0 <= j < n implies (#[trigger] uf.same_class(i, j)
                        <==> connected(pk1, items@[i]@, items@[j]@)) by {
                        assert(uf.same_class(i, j) <==> linked(newe, i, j));
                        assert(linked(newe, i, j) == (linked(olde, i, j) || (linked(
                            olde,
                            i,
                            il as int,
                        ) && linked(olde, ir as int, j)) || (linked(olde, i, ir as int) && linked(
                            olde,
                            il as int,
                            j,
                        ))));
                        assert(olduf.same_class(i, j) <==> linked(olde, i, j));
                        assert(olduf.same_class(i, il as int) <==> linked(olde, i, il as int));
                        assert(olduf.same_class(ir as int, j) <==> linked(olde, ir as int, j));
                        assert(olduf.same_class(i, ir as int) <==> linked(olde, i, ir as int));
                        assert(olduf.same_class(il as int, j) <==> linked(olde, il as int, j));
                        assert(connected(pk1, items@[i]@, items@[j]@) == (connected(
                            pk,
                            items@[i]@,
                            items@[j]@,
                        ) || (connected(pk, items@[i]@, lv) && connected(pk, rv, items@[j]@)) || (
                        connected(pk, items@[i]@, rv) && connected(pk, lv, items@[j]@))));
                    }
                }
            },
            _ => {
                proof {
                    assert forall|i: int, j: int|
                        0 <= i < n && 0 <= j < n implies (#[trigger] uf.same_class(i, j)
                        <==> connected(pk1, items@[i]@, items@[j]@)) by {
                        assert(connected(pk1, items@[i]@, items@[j]@) == connected(
                            pk,
                            items@[i]@,
                            items@[j]@,
                        ));
                    }
                }
            },
        }
        k2 = k2 + 1;
    }
    proof {
        assert(preds.take(equalities@.len() as int) =~= preds);
    }
    let mut out: Vec<ScalarExpr> = Vec::new();
    let ghost mut gpairs: Seq<(int, int)> = Seq::empty();
    let mut i: usize = 0;
    while i < n
        invariant
            i <= n,
            n == items@.len(),
            preds == equalities.deep_view(),
            uf.spec_len() == n,
            uf.wf(),
            distinct_views(items@),
            forall|t: int| 0 <= t < items@.len() ==> occurs(preds, #[trigger] items@[t]@),
            forall|a: int, b: int|
                0 <= a < n && 0 <= b < n ==> (#[trigger] uf.same_class(a, b) <==> connected(
                    preds,
                    items@[a]@,
                    items@[b]@,
                )),
            forall|t: int|
                0 <= t < out.deep_view().len() ==> infer_out_ok(
                    preds,
                    #[trigger] out.deep_view()[t],
                ),
            gpairs.len() == out.deep_view().len(),
            forall|t: int|
                0 <= t < gpairs.len() ==> 0 <= (#[trigger] gpairs[t]).0 < gpairs[t].1 < n
                    && gpairs[t].0 < i && out.deep_view()[t] == ExprV::Eq(
                    Box::new(items@[gpairs[t].0]@),
                    Box::new(items@[gpairs[t].1]@),
                ),
            forall|t1: int, t2: int|
                #![trigger gpairs[t1], gpairs[t2]]
                0 <= t1 < t2 < gpairs.len() ==> (gpairs[t1].0 < gpairs[t2].0 || (gpairs[t1].0
                    == gpairs[t2].0 && gpairs[t1].1 < gpairs[t2].1)),
            forall|a: int, b: int|
                #![trigger uf.same_class(a, b)]
                0 <= a < b < n && a < i && uf.same_class(a, b) && !has_eq_mod_flip(
                    preds,
                    items@[a]@,
                    items@[b]@,
                ) ==> has_eq_mod_flip(out.deep_view(), items@[a]@, items@[b]@),
        decreases n - i,
    {
        let mut j = i + 1;
        while j < n
            invariant
                i < j <= n,
                i < n,
                n == items@.len(),
                preds == equalities.deep_view(),
                uf.spec_len() == n,
                uf.wf(),
                distinct_views(items@),
                forall|t: int| 0 <= t < items@.len() ==> occurs(preds, #[trigger] items@[t]@),
                forall|a: int, b: int|
                    0 <= a < n && 0 <= b < n ==> (#[trigger] uf.same_class(a, b) <==> connected(
                        preds,
                        items@[a]@,
                        items@[b]@,
                    )),
                forall|t: int|
                    0 <= t < out.deep_view().len() ==> infer_out_ok(
                        preds,
                        #[trigger] out.deep_view()[t],
                    ),
                gpairs.len() == out.deep_view().len(),
                forall|t: int|
                    0 <= t < gpairs.len() ==> 0 <= (#[trigger] gpairs[t]).0 < gpairs[t].1 < n && (
                    gpairs[t].0 < i || (gpairs[t].0 == i && gpairs[t].1 < j)) && out.deep_view()[t]
                        == ExprV::Eq(
                        Box::new(items@[gpairs[t].0]@),
                        Box::new(items@[gpairs[t].1]@),
                    ),
                forall|t1: int, t2: int|
                    #![trigger gpairs[t1], gpairs[t2]]
                    0 <= t1 < t2 < gpairs.len() ==> (gpairs[t1].0 < gpairs[t2].0 || (gpairs[t1].0
                        == gpairs[t2].0 && gpairs[t1].1 < gpairs[t2].1)),
                forall|a: int, b: int|
                    #![trigger uf.same_class(a, b)]
                    0 <= a < b < n && (a < i || (a == i && b < j)) && uf.same_class(a, b)
                        && !has_eq_mod_flip(preds, items@[a]@, items@[b]@) ==> has_eq_mod_flip(
                        out.deep_view(),
                        items@[a]@,
                        items@[b]@,
                    ),
            decreases n - j,
        {
            let ri = uf.find(i);
            let rj = uf.find(j);
            let ghost predv = out.deep_view();
            let ghost prevec = out@;
            if ri == rj {
                if !contains_eq_mod_flip(equalities, &items[i], &items[j]) {
                    let e = ScalarExpr::Eq(
                        Box::new(items[i].clone_expr()),
                        Box::new(items[j].clone_expr()),
                    );
                    proof {
                        assert(uf.same_class(i as int, j as int));
                        assert(e@ == ExprV::Eq(
                            Box::new(items@[i as int]@),
                            Box::new(items@[j as int]@),
                        ));
                        assert(infer_out_ok(preds, e@));
                    }
                    out.push(e);
                    proof {
                        gpairs = gpairs.push((i as int, j as int));
                        assert(out@.len() == predv.len() + 1);
                        assert forall|t: int|
                            0 <= t < out.deep_view().len() implies infer_out_ok(
                            preds,
                            #[trigger] out.deep_view()[t],
                        ) by {
                            assert(out.deep_view()[t] == out@[t]@);
                            if t < predv.len() {
                                assert(out@[t] == prevec[t]);
                                assert(out@[t]@ == predv[t]);
                            } else {
                                assert(out@[t] == e);
                            }
                        }
                        assert forall|t: int|
                            0 <= t < gpairs.len() implies 0 <= (#[trigger] gpairs[t]).0
                            < gpairs[t].1 < n && (gpairs[t].0 < i || (gpairs[t].0 == i
                            && gpairs[t].1 <= j)) && out.deep_view()[t] == ExprV::Eq(
                            Box::new(items@[gpairs[t].0]@),
                            Box::new(items@[gpairs[t].1]@),
                        ) by {
                            assert(out.deep_view()[t] == out@[t]@);
                            if t < predv.len() {
                                assert(out@[t] == prevec[t]);
                                assert(out@[t]@ == predv[t]);
                            } else {
                                assert(out@[t] == e);
                                assert(gpairs[t] == (i as int, j as int));
                            }
                        }
                    }
                }
            }
            proof {
                assert forall|a: int, b: int|
                    #![trigger uf.same_class(a, b)]
                    0 <= a < b < n && (a < i || (a == i && b <= j)) && uf.same_class(a, b)
                        && !has_eq_mod_flip(preds, items@[a]@, items@[b]@) implies has_eq_mod_flip(
                    out.deep_view(),
                    items@[a]@,
                    items@[b]@,
                ) by {
                    if a == i && b == j as int {
                        assert(out.deep_view()[out@.len() - 1] == out@[out@.len() - 1]@);
                    } else {
                        assert(has_eq_mod_flip(predv, items@[a]@, items@[b]@));
                        let t = choose|t: int|
                            0 <= t < predv.len() && (predv[t] == ExprV::Eq(
                                Box::new(items@[a]@),
                                Box::new(items@[b]@),
                            ) || predv[t] == ExprV::Eq(Box::new(items@[b]@), Box::new(items@[a]@)));
                        assert(out.deep_view()[t] == predv[t]);
                    }
                }
            }
            j = j + 1;
        }
        i = i + 1;
    }
    proof {
        lemma_connected_equivalence(preds);
        assert forall|x: ExprV, y: ExprV|
            #![trigger occurs(preds, x), occurs(preds, y)]
            occurs(preds, x) && occurs(preds, y) && x != y && connected(preds, x, y)
                && !has_eq_mod_flip(preds, x, y) implies has_eq_mod_flip(out.deep_view(), x, y) by {
            let a = choose|a: int| 0 <= a < items@.len() && items@[a]@ == x;
            let b = choose|b: int| 0 <= b < items@.len() && items@[b]@ == y;
            assert(uf.same_class(a, b));
            if a < b {
                assert(has_eq_mod_flip(out.deep_view(), items@[a]@, items@[b]@));
            } else {
                assert(connected(preds, y, x));
                assert(uf.same_class(b, a));
                assert(!has_eq_mod_flip(preds, items@[b]@, items@[a]@));
                assert(has_eq_mod_flip(out.deep_view(), items@[b]@, items@[a]@));
            }
        }
        assert forall|t1: int, t2: int|
            #![trigger out.deep_view()[t1], out.deep_view()[t2]]
            0 <= t1 < t2 < out.deep_view().len() implies !same_eq_mod_flip(
            out.deep_view()[t1],
            out.deep_view()[t2],
        ) by {
            let p1 = gpairs[t1];
            let p2 = gpairs[t2];
            assert(out.deep_view()[t1] == ExprV::Eq(
                Box::new(items@[p1.0]@),
                Box::new(items@[p1.1]@),
            ));
            assert(out.deep_view()[t2] == ExprV::Eq(
                Box::new(items@[p2.0]@),
                Box::new(items@[p2.1]@),
            ));
            if out.deep_view()[t1] == out.deep_view()[t2] {
                assert(items@[p1.0]@ == items@[p2.0]@ && items@[p1.1]@ == items@[p2.1]@);
                assert(p1.0 == p2.0) by {
                    if p1.0 != p2.0 {
                        if p1.0 < p2.0 {
                            assert(items@[p1.0]@ != items@[p2.0]@);
                        } else {
                            assert(items@[p2.0]@ != items@[p1.0]@);
                        }
                    }
                }
                assert(p1.1 == p2.1) by {
                    if p1.1 != p2.1 {
                        if p1.1 < p2.1 {
                            assert(items@[p1.1]@ != items@[p2.1]@);
                        } else {
                            assert(items@[p2.1]@ != items@[p1.1]@);
                        }
                    }
                }
                assert(false);
            }
            if out.deep_view()[t1] == (match out.deep_view()[t2] {
                ExprV::Eq(l, r) => ExprV::Eq(r, l),
                e => e,
            }) {
                assert(items@[p1.0]@ == items@[p2.1]@ && items@[p1.1]@ == items@[p2.0]@);
                assert(p1.0 == p2.1) by {
                    if p1.0 != p2.1 {
                        if p1.0 < p2.1 {
                            assert(items@[p1.0]@ != items@[p2.1]@);
                        } else {
                            assert(items@[p2.1]@ != items@[p1.0]@);
                        }
                    }
                }
                assert(p1.1 == p2.0) by {
                    if p1.1 != p2.0 {
                        if p1.1 < p2.0 {
                            assert(items@[p1.1]@ != items@[p2.0]@);
                        } else {
                            assert(items@[p2.0]@ != items@[p1.1]@);
                        }
                    }
                }
                assert(false);
            }
        }
    }
    out
}


/// Every recorded pair is itself linked.
pub proof fn lemma_linked_edge(edges: Seq<(int, int)>, k: int)
    requires
        0 <= k < edges.len(),
    ensures
        linked(edges, edges[k].0, edges[k].1),
    decreases edges.len(),
{
    let rest = edges.drop_last();
    lemma_linked_equivalence(rest);
    if k < edges.len() - 1 {
        assert(rest[k] == edges[k]);
        lemma_linked_edge(rest, k);
    } else {
        assert(linked(rest, edges[k].0, edges[k].0));
        assert(linked(rest, edges[k].1, edges[k].1));
    }
}

/// The closure of the recorded pairs is the least equivalence relation that
/// relates the ends of every pair: any other such relation contains it.
pub proof fn lemma_linked_least(edges: Seq<(int, int)>, q: spec_fn(int, int) -> bool)
    requires
        forall|x: int| #[trigger] q(x, x),
        forall|x: int, y: int| #[trigger] q(x, y) ==> q(y, x),
        forall|x: int, y: int, z: int|
            #![trigger q(x, y), q(y, z)]
            q(x, y) && q(y, z) ==> q(x, z),
        forall|k: int| 0 <= k < edges.len() ==> q((#[trigger] edges[k]).0, edges[k].1),
    ensures
        forall|x: int, y: int| #[trigger] linked(edges, x, y) ==> q(x, y),
    decreases edges.len(),
{
    if edges.len() > 0 {
        let rest = edges.drop_last();
        let a = edges.last().0;
        let b = edges.last().1;
        assert forall|k: int|
            0 <= k < rest.len() implies q((#[trigger] rest[k]).0, rest[k].1) by {
            assert(rest[k] == edges[k]);
        }
        lemma_linked_least(rest, q);
        assert(q(a, b));
        assert forall|x: int, y: int| #[trigger] linked(edges, x, y) implies q(x, y) by {
            if linked(rest, x, y) {
                assert(q(x, y));
            } else if linked(rest, x, a) && linked(rest, b, y) {
                assert(q(x, a) && q(b, y));
                assert(q(x, b));
            } else {
                assert(linked(rest, x, b) && linked(rest, a, y));
                assert(q(x, b) && q(a, y));
                assert(q(b, a));
                assert(q(x, a));
            }
        }
    }
}

/// Two indices sit in the same union-find class exactly when the recorded
/// pairs connect them.
pub proof fn lemma_same_class_iff_linked(uf: UnionFind, i: int, j: int)
    requires
        uf.wf(),
        0 <= i < uf.spec_len(),
        0 <= j < uf.spec_len(),
    ensures
        uf.same_class(i, j) <==> linked(uf.edges(), i, j),
{
}

/// Growing the predicate list keeps every connection.
pub proof fn lemma_connected_extend(p: Seq<ExprV>, q: Seq<ExprV>, x: ExprV, y: ExprV)
    requires
        connected(p, x, y),
    ensures
        connected(p + q, x, y),
    decreases q.len(),
{
    if q.len() == 0 {
        assert(p + q =~= p);
    } else {
        lemma_connected_extend(p, q.drop_last(), x, y);
        assert(p + q.drop_last() =~= (p + q).drop_last());
        assert((p + q).last() == q.last());
    }
}

/// Appending equalities whose sides are already connected changes no
/// connection.
pub proof fn lemma_connected_absorb(p: Seq<ExprV>, o: Seq<ExprV>)
    requires
        forall|k: int| 0 <= k < o.len() ==> infer_out_ok(p, #[trigger] o[k]),
    ensures
        forall|x: ExprV, y: ExprV|
            #[trigger] connected(p + o, x, y) <==> connected(p, x, y),
    decreases o.len(),
{
    lemma_connected_equivalence(p);
    if o.len() == 0 {
        assert(p + o =~= p);
    } else {
        let rest = o.drop_last();
        let e = o.last();
        assert forall|k: int| 0 <= k < rest.len() implies infer_out_ok(p, #[trigger] rest[k]) by {
            assert(rest[k] == o[k]);
        }
        lemma_connected_absorb(p, rest);
        assert(infer_out_ok(p, e));
        let l = *(e->Eq_0);
        let r = *(e->Eq_1);
        assert(p + rest =~= (p + o).drop_last());
        assert((p + o).last() == e);
        assert forall|x: ExprV, y: ExprV|
            #[trigger] connected(p + o, x, y) <==> connected(p, x, y) by {
            assert(connected(p + o, x, y) == (connected(p + rest, x, y) || (connected(
                p + rest,
                x,
                l,
            ) && connected(p + rest, r, y)) || (connected(p + rest, x, r) && connected(
                p + rest,
                l,
                y,
            ))));
            assert(connected(p + rest, x, y) == connected(p, x, y));
            assert(connected(p + rest, x, l) == connected(p, x, l));
            assert(connected(p + rest, r, y) == connected(p, r, y));
            assert(connected(p + rest, x, r) == connected(p, x, r));
            assert(connected(p + rest, l, y) == connected(p, l, y));
            assert(connected(p, l, r));
        }
    }
}

/// A side occurring among appended inferred equalities already occurs in the
/// input.
pub proof fn lemma_occurs_absorb(p: Seq<ExprV>, o: Seq<ExprV>, x: ExprV)
    requires
        forall|k: int| 0 <= k < o.len() ==> infer_out_ok(p, #[trigger] o[k]),
        occurs(p + o, x),
    ensures
        occurs(p, x),
{
    let t = choose|t: int| 0 <= t < (p + o).len() && eq_mentions((p + o)[t], x);
    if t < p.len() {
        assert(eq_mentions(p[t], x));
    } else {
        assert((p + o)[t] == o[t - p.len()]);
        assert(infer_out_ok(p, o[t - p.len()]));
    }
}

/// Whether the second round of inference ran over the input together with
/// the first round's output.
pub open spec fn second_round(p: Seq<ExprV>, fst: Seq<ExprV>, snd: Seq<ExprV>) -> bool {
    infer_post(p + fst, snd)
}

/// Inferring once saturates: inferring again over the input together with
/// what was inferred yields nothing new.
pub proof fn lemma_infer_saturates(p: Seq<ExprV>, fst: Seq<ExprV>, snd: Seq<ExprV>)
    requires
        infer_post(p, fst),
        second_round(p, fst, snd),
    ensures
        snd.len() == 0,
{
    let out1 = fst;
    let out2 = snd;
    if out2.len() > 0 {
        let e = out2[0];
        assert(infer_out_ok(p + out1, e));
        let x = *(e->Eq_0);
        let y = *(e->Eq_1);
        lemma_occurs_absorb(p, out1, x);
        lemma_occurs_absorb(p, out1, y);
        lemma_connected_absorb(p, out1);
        assert(connected(p, x, y));
        assert(!has_eq_mod_flip(p + out1, x, y));
        assert forall|k: int| 0 <= k < p.len() implies (p + out1)[k] == #[trigger] p[k] by {
            assert((p + out1)[k] == p[k]);
        }
        if has_eq_mod_flip(p, x, y) {
            let t = choose|t: int|
                0 <= t < p.len() && (p[t] == ExprV::Eq(Box::new(x), Box::new(y)) || p[t]
                    == ExprV::Eq(Box::new(y), Box::new(x)));
            assert((p + out1)[t] == p[t]);
            assert(false);
        }
        assert(has_eq_mod_flip(out1, x, y));
        let t = choose|t: int|
            0 <= t < out1.len() && (out1[t] == ExprV::Eq(Box::new(x), Box::new(y)) || out1[t]
                == ExprV::Eq(Box::new(y), Box::new(x)));
        assert((p + out1)[p.len() + t] == out1[t]);
        assert(false);
    }
}


/// The equality predicates that a list of key pairs stands for.
pub open spec fn pairs_as_preds(s: Seq<(ScalarExpr, ScalarExpr)>) -> Seq<ExprV> {
    Seq::new(s.len(), |i: int| ExprV::Eq(Box::new(s[i].0@), Box::new(s[i].1@)))
}

/// What one representative pair promises: distinct, connected sides that
/// occur among the input pairs.
pub open spec fn uniq_out_ok(preds: Seq<ExprV>, x: ExprV, y: ExprV) -> bool {
    occurs(preds, x) && occurs(preds, y) && x != y && connected(preds, x, y)
}

/// Whether `reps` picks one representative equality per multi-element
/// equivalence class of the predicates: each pair joins two distinct
/// connected sides, no two pairs are connected to each other, and every
/// class with two or more members is represented.
#[verifier::opaque]
pub open spec fn unique_reps(preds: Seq<ExprV>, reps: Seq<(ExprV, ExprV)>) -> bool {
    &&& forall|t: int|
        0 <= t < reps.len() ==> uniq_out_ok(preds, (#[trigger] reps[t]).0, reps[t].1)
    &&& forall|t1: int, t2: int|
        0 <= t1 < t2 < reps.len() ==> !connected(
            preds,
            (#[trigger] reps[t1]).0,
            (#[trigger] reps[t2]).0,
        )
    &&& forall|x: ExprV, y: ExprV|
        #![trigger occurs(preds, x), occurs(preds, y)]
        occurs(preds, x) && occurs(preds, y) && x != y && connected(preds, x, y) ==> exists|t: int|
            0 <= t < reps.len() && connected(preds, (#[trigger] reps[t]).0, x)
}

/// The images of a list of expression pairs.
pub open spec fn view_pairs(s: Seq<(ScalarExpr, ScalarExpr)>) -> Seq<(ExprV, ExprV)> {
    Seq::new(s.len(), |i: int| (s[i].0@, s[i].1@))
}

/// Picks one representative equality per multi-element equivalence class of
/// the input key pairs.
#[verifier::rlimit(100)]
pub fn get_unique_equalities(equalities: &Vec<(ScalarExpr, ScalarExpr)>) -> (out: Vec<
    (ScalarExpr, ScalarExpr),
>)
    ensures
        unique_reps(pairs_as_preds(equalities@), view_pairs(out@)),
        view_pairs(out@) == canon_reps(view_pairs(equalities@)),
{
    let ghost preds = pairs_as_preds(equalities@);
    let ghost vpairs = view_pairs(equalities@);
    proof {
        assert(preds =~= preds_of_pairs(vpairs));
    }
    let mut items: Vec<ScalarExpr> = Vec::new();
    let mut k: usize = 0;
    proof {
        assert(view_items(items@) =~= Seq::<ExprV>::empty());
        assert(vpairs.take(0) =~= Seq::<(ExprV, ExprV)>::empty());
    }
    while k < equalities.len()
        invariant
            k <= equalities@.len(),
            preds == pairs_as_preds(equalities@),
            vpairs == view_pairs(equalities@),
            distinct_views(items@),
            view_items(items@) == intern_items(vpairs.take(k as int)),
            forall|i: int|
                0 <= i < items@.len() ==> occurs(preds.take(k as int), #[trigger] items@[i]@),
            forall|x: ExprV|
                #[trigger] occurs(preds.take(k as int), x) ==> exists|i: int|
                    0 <= i < items@.len() && items@[i]@ == x,
        decreases equalities@.len() - k,
    {
        let ghost pk = preds.take(k as int);
        let ghost pk1 = preds.take(k as int + 1);
        proof {
            assert(pk1.drop_last() =~= pk);
            assert(pk1.last() == preds[k as int]);
        }
        let pair = &equalities[k];
        let ghost olditems = items@;
        intern_item(&mut items, &pair.0);
        intern_item(&mut items, &pair.1);
        proof {
            assert(vpairs.take(k as int + 1).drop_last() =~= vpairs.take(k as int));
            assert(vpairs.take(k as int + 1).last() == vpairs[k as int]);
            assert(vpairs[k as int] == (pair.0@, pair.1@));
        }
        proof {
            assert(preds[k as int] == ExprV::Eq(Box::new(pair.0@), Box::new(pair.1@)));
            assert forall|i: int|
                0 <= i < items@.len() implies occurs(pk1, #[trigger] items@[i]@) by {
                if exists|j: int| 0 <= j < olditems.len() && olditems[j]@ == items@[i]@ {
                    let j = choose|j: int| 0 <= j < olditems.len() && olditems[j]@ == items@[i]@;
                    assert(occurs(pk, olditems[j]@));
                    let t = choose|t: int| 0 <= t < pk.len() && eq_mentions(pk[t], olditems[j]@);
                    assert(eq_mentions(pk1[t], items@[i]@));
                } else {
                    assert(items@[i]@ == pair.0@ || items@[i]@ == pair.1@);
                    assert(eq_mentions(pk1[k as int], items@[i]@));
                }
            }
            assert forall|x: ExprV| #[trigger] occurs(pk1, x) implies exists|i: int|
                0 <= i < items@.len() && items@[i]@ == x by {
                let t = choose|t: int| 0 <= t < pk1.len() && eq_mentions(pk1[t], x);
                if t < k as int {
                    assert(eq_mentions(pk[t], x));
                    assert(occurs(pk, x));
                    let j = choose|j: int| 0 <= j < olditems.len() && olditems[j]@ == x;
                    assert(items@[j]@ == x);
                } else {
                    assert(x == pair.0@ || x == pair.1@);
                }
            }
        }
        k = k + 1;
    }
    proof {
        assert(preds.take(equalities@.len() as int) =~= preds);
        assert(vpairs.take(equalities@.len() as int) =~= vpairs);
    }
    let n = items.len();
    let mut uf = UnionFind::new(n);
    let mut k2: usize = 0;
    while k2 < equalities.len()
        invariant
            k2 <= equalities@.len(),
            preds == pairs_as_preds(equalities@),
            vpairs == view_pairs(equalities@),
            view_items(items@) == intern_items(vpairs),
            n == items@.len(),
            uf.spec_len() == n,
            uf.wf(),
            distinct_views(items@),
            forall|i: int| 0 <= i < items@.len() ==> occurs(preds, #[trigger] items@[i]@),
            forall|x: ExprV|
                #[trigger] occurs(preds, x) ==> exists|i: int|
                    0 <= i < items@.len() && items@[i]@ == x,
            forall|i: int, j: int|
                0 <= i < n && 0 <= j < n ==> (#[trigger] uf.same_class(i, j) <==> connected(
                    preds.take(k2 as int),
                    items@[i]@,
                    items@[j]@,
                )),
        decreases equalities@.len() - k2,
    {
        let ghost pk = preds.take(k2 as int);
        let ghost pk1 = preds.take(k2 as int + 1);
        proof {
            assert(pk1.drop_last() =~= pk);
            assert(pk1.last() == preds[k2 as int]);
        }
        let pair = &equalities[k2];
        let ghost lv = pair.0@;
        let ghost rv = pair.1@;
        proof {
            assert(preds[k2 as int] == ExprV::Eq(Box::new(lv), Box::new(rv)));
            assert(eq_mentions(preds[k2 as int], lv));
            assert(occurs(preds, lv));
            assert(eq_mentions(preds[k2 as int], rv));
            assert(occurs(preds, rv));
        }
        let il = index_of(&items, &pair.0);
        let ir = index_of(&items, &pair.1);
        let ghost olduf = uf;
        uf.union(il, ir);
        proof {
            let olde = olduf.edges();
            let newe = uf.edges();
            assert(newe.drop_last() =~= olde);
            assert forall|i: int, j: int|
                0 <= i < n && 0 <= j < n implies (#[trigger] uf.same_class(i, j) <==> connected(
                pk1,
                items@[i]@,
                items@[j]@,
            )) by {
                assert(uf.same_class(i, j) <==> linked(newe, i, j));
                assert(linked(newe, i, j) == (linked(olde, i, j) || (linked(olde, i, il as int)
                    && linked(olde, ir as int, j)) || (linked(olde, i, ir as int) && linked(
                    olde,
                    il as int,
                    j,
                ))));
                assert(olduf.same_class(i, j) <==> linked(olde, i, j));
                assert(olduf.same_class(i, il as int) <==> linked(olde, i, il as int));
                assert(olduf.same_class(ir as int, j) <==> linked(olde, ir as int, j));
                assert(olduf.same_class(i, ir as int) <==> linked(olde, i, ir as int));
                assert(olduf.same_class(il as int, j) <==> linked(olde, il as int, j));
                assert(connected(pk1, items@[i]@, items@[j]@) == (connected(pk, items@[i]@, items@[j]@)
                    || (connected(pk, items@[i]@, lv) && connected(pk, rv, items@[j]@)) || (
                connected(pk, items@[i]@, rv) && connected(pk, lv, items@[j]@))));
            }
        }
        k2 = k2 + 1;
    }
    proof {
        assert(preds.take(equalities@.len() as int) =~= preds);
    }
    let mut out: Vec<(ScalarExpr, ScalarExpr)> = Vec::new();
    let ghost mut roots: Seq<int> = Seq::empty();
    proof {
        assert forall|a: int| 0 <= a < n implies 0 <= #[trigger] uf.spec_root(a) by {
            lemma_root_props(uf.parent@, a);
        }
    }
    let mut i: usize = 0;
    while i < n
        invariant
            i <= n,
            n == items@.len(),
            preds == pairs_as_preds(equalities@),
            vpairs == view_pairs(equalities@),
            view_items(items@) == intern_items(vpairs),
            view_pairs(out@) == canon_prefix(preds, view_items(items@), i as int),
            uf.spec_len() == n,
            uf.wf(),
            distinct_views(items@),
            forall|t: int| 0 <= t < items@.len() ==> occurs(preds, #[trigger] items@[t]@),
            forall|x: ExprV|
                #[trigger] occurs(preds, x) ==> exists|a: int|
                    0 <= a < items@.len() && items@[a]@ == x,
            forall|a: int, b: int|
                0 <= a < n && 0 <= b < n ==> (#[trigger] uf.same_class(a, b) <==> connected(
                    preds,
                    items@[a]@,
                    items@[b]@,
                )),
            roots.len() == out@.len(),
            forall|t: int|
                0 <= t < out@.len() ==> 0 <= #[trigger] roots[t] < i && uf.spec_root(roots[t])
                    == roots[t],
            forall|t: int| 0 <= t < out@.len() ==> (#[trigger] out@[t]).0@ == items@[roots[t]]@,
            forall|t1: int, t2: int|
                #![trigger roots[t1], roots[t2]]
                0 <= t1 < t2 < out@.len() ==> roots[t1] < roots[t2],
            forall|t: int|
                0 <= t < out@.len() ==> uniq_out_ok(preds, (#[trigger] out@[t]).0@, out@[t].1@),
            forall|a: int, b: int|
                #![trigger uf.same_class(a, b)]
                0 <= a < n && 0 <= b < n && a != b && uf.same_class(a, b) && uf.spec_root(a) < i
                    ==> exists|t: int|
                    0 <= t < out@.len() && roots[t] == uf.spec_root(a),
        decreases n - i,
    {
        let ri = uf.find(i);
        if ri == i {
            let mut found: usize = 0;
            let mut has_found = false;
            let mut j = i + 1;
            while j < n
                invariant
                    i < j <= n,
                    i < n,
                    n == items@.len(),
                    uf.spec_len() == n,
                    uf.wf(),
                    !has_found ==> forall|b: int| i < b < j ==> !uf.same_class(i as int, b),
                    has_found ==> i < found < j && uf.same_class(i as int, found as int) && (
                    forall|b: int| i < b < found ==> !uf.same_class(i as int, b)),
                decreases n - j,
            {
                if !has_found {
                    let rj = uf.find(j);
                    if rj == uf.find(i) {
                        found = j;
                        has_found = true;
                    }
                }
                j = j + 1;
            }
            if has_found {
                let ghost roots0 = roots;
                let ghost out0 = out@;
                let e = (items[i].clone_expr(), items[found].clone_expr());
                proof {
                    assert(uf.same_class(i as int, found as int));
                    assert(connected(preds, items@[i as int]@, items@[found as int]@));
                    roots = roots.push(i as int);
                }
                out.push(e);
                proof {
                    assert(out@.len() == out0.len() + 1);
                    assert(roots.len() == roots0.len() + 1);
                    let iv = view_items(items@);
                    assert(class_root(preds, iv, i as int)) by {
                        assert forall|jj: int|
                            0 <= jj < i implies !connected(preds, #[trigger] iv[jj], iv[i as int]) by {
                            lemma_root_iff_min(uf.parent@, i as int);
                            assert(!uf.same_class(jj, i as int));
                            assert(iv[jj] == items@[jj]@);
                        }
                    }
                    assert forall|b: int|
                        i < b < found implies !connected(preds, iv[i as int], #[trigger] iv[b]) by {
                        assert(!uf.same_class(i as int, b));
                    }
                    assert(connected(preds, iv[i as int], iv[found as int]));
                    lemma_first_partner_found(preds, iv, i as int, i as int + 1, found as int);
                    assert forall|t: int|
                        0 <= t < out@.len() implies view_pairs(out@)[t] == canon_prefix(
                        preds,
                        iv,
                        i as int + 1,
                    )[t] by {
                        assert(view_pairs(out@)[t] == (out@[t].0@, out@[t].1@));
                        if t < out0.len() {
                            assert(out@[t] == out0[t]);
                        } else {
                            assert(out@[t] == e);
                        }
                    }
                    assert(view_pairs(out@) =~= canon_prefix(preds, iv, i as int + 1));
                    assert forall|a: int, b: int|
                        #![trigger uf.same_class(a, b)]
                        0 <= a < n && 0 <= b < n && a != b && uf.same_class(a, b) && uf.spec_root(a)
                            < i + 1 implies exists|t: int|
                        0 <= t < out@.len() && roots[t] == uf.spec_root(a) by {
                        if uf.spec_root(a) == i as int {
                            assert(roots[roots.len() - 1] == i as int);
                        } else {
                            assert(uf.spec_root(a) < i);
                            let t = choose|t: int|
                                0 <= t < out0.len() && roots0[t] == uf.spec_root(a);
                            assert(roots[t] == roots0[t]);
                        }
                    }
                }
            } else {
                proof {
                    let iv = view_items(items@);
                    assert forall|b: int|
                        i < b < n implies !connected(preds, iv[i as int], #[trigger] iv[b]) by {
                        assert(!uf.same_class(i as int, b));
                    }
                    lemma_first_partner_none(preds, iv, i as int, i as int + 1);
                    assert(view_pairs(out@) == canon_prefix(preds, iv, i as int + 1));
                    assert forall|a: int, b: int|
                        #![trigger uf.same_class(a, b)]
                        0 <= a < n && 0 <= b < n && a != b && uf.same_class(a, b) && uf.spec_root(a)
                            < i + 1 implies exists|t: int|
                        0 <= t < out@.len() && roots[t] == uf.spec_root(a) by {
                        if uf.spec_root(a) == i as int {
                            lemma_root_props(uf.parent@, a);
                            lemma_root_props(uf.parent@, b);
                            let m: int = if a == i as int {
                                b
                            } else {
                                a
                            };
                            assert(uf.same_class(i as int, m));
                            assert(uf.spec_root(m) == i as int);
                            assert(i as int <= m);
                            assert(false);
                        }
                    }
                }
            }
        } else {
            proof {
                lemma_root_props(uf.parent@, i as int);
                let iv = view_items(items@);
                lemma_root_iff_min(uf.parent@, i as int);
                assert(root_of(uf.parent@, i as int) != i as int);
                assert(!(forall|j: int|
                    0 <= j < i ==> #[trigger] root_of(uf.parent@, j) != root_of(
                        uf.parent@,
                        i as int,
                    )));
                let jj = choose|jj: int|
                    0 <= jj < i && #[trigger] root_of(uf.parent@, jj) == root_of(
                        uf.parent@,
                        i as int,
                    );
                assert(uf.same_class(jj, i as int));
                assert(connected(preds, items@[jj]@, items@[i as int]@));
                assert(iv[jj] == items@[jj]@ && iv[i as int] == items@[i as int]@);
                assert(!class_root(preds, iv, i as int));
                assert(view_pairs(out@) == canon_prefix(preds, iv, i as int + 1));
                assert forall|a: int, b: int|
                    #![trigger uf.same_class(a, b)]
                    0 <= a < n && 0 <= b < n && a != b && uf.same_class(a, b) && uf.spec_root(a) < i
                        + 1 implies exists|t: int|
                    0 <= t < out@.len() && roots[t] == uf.spec_root(a) by {
                    if uf.spec_root(a) == i as int {
                        lemma_root_props(uf.parent@, a);
                        assert(false);
                    }
                }
            }
        }
        i = i + 1;
    }
    proof {
        assert forall|t1: int, t2: int|
            0 <= t1 < t2 < out@.len() implies !connected(
            preds,
            (#[trigger] out@[t1]).0@,
            (#[trigger] out@[t2]).0@,
        ) by {
            let r1 = roots[t1];
            let r2 = roots[t2];
            assert(0 <= r1 < n && uf.spec_root(r1) == r1 && out@[t1].0@ == items@[r1]@);
            assert(0 <= r2 < n && uf.spec_root(r2) == r2 && out@[t2].0@ == items@[r2]@);
            assert(r1 != r2);
            assert(!uf.same_class(r1, r2));
        }
        assert forall|x: ExprV, y: ExprV|
            #![trigger occurs(preds, x), occurs(preds, y)]
            occurs(preds, x) && occurs(preds, y) && x != y && connected(preds, x, y) implies exists|t: int|
            0 <= t < out@.len() && connected(preds, (#[trigger] out@[t]).0@, x) by {
            let a = choose|a: int| 0 <= a < items@.len() && items@[a]@ == x;
            let b = choose|b: int| 0 <= b < items@.len() && items@[b]@ == y;
            assert(uf.same_class(a, b));
            assert(a != b);
            lemma_root_props(uf.parent@, a);
            let t = choose|t: int| 0 <= t < out@.len() && roots[t] == uf.spec_root(a);
            assert(uf.spec_root(roots[t]) == roots[t]);
            assert(uf.same_class(roots[t], a));
            assert(connected(preds, items@[roots[t]]@, items@[a]@));
            assert(out@[t].0@ == items@[roots[t]]@);
            assert(connected(preds, out@[t].0@, x));
        }
        assert(view_items(items@).len() == n);
        assert(preds =~= preds_of_pairs(vpairs));
        assert(canon_prefix(preds, view_items(items@), n as int) == canon_prefix(
            preds_of_pairs(vpairs),
            intern_items(vpairs),
            intern_items(vpairs).len() as int,
        ));
        assert(view_pairs(out@) == canon_reps(vpairs));
        reveal(unique_reps);
        let repsv = view_pairs(out@);
        assert forall|t: int|
            0 <= t < repsv.len() implies uniq_out_ok(preds, (#[trigger] repsv[t]).0, repsv[t].1) by {
            assert(uniq_out_ok(preds, out@[t].0@, out@[t].1@));
        }
        assert forall|t1: int, t2: int|
            0 <= t1 < t2 < repsv.len() implies !connected(
            preds,
            (#[trigger] repsv[t1]).0,
            (#[trigger] repsv[t2]).0,
        ) by {
            assert(!connected(preds, out@[t1].0@, out@[t2].0@));
        }
        assert forall|x: ExprV, y: ExprV|
            #![trigger occurs(preds, x), occurs(preds, y)]
            occurs(preds, x) && occurs(preds, y) && x != y && connected(preds, x, y) implies exists|t: int|
            0 <= t < repsv.len() && connected(preds, (#[trigger] repsv[t]).0, x) by {
            let t = choose|t: int| 0 <= t < out@.len() && connected(preds, out@[t].0@, x);
            assert(repsv[t].0 == out@[t].0@);
            assert(connected(preds, repsv[t].0, x));
        }
    }
    out
}

/// The images of a list of expressions.
pub open spec fn view_items(s: Seq<ScalarExpr>) -> Seq<ExprV> {
    Seq::new(s.len(), |i: int| s[i]@)
}

/// The equality predicates a list of image pairs stands for.
pub open spec fn preds_of_pairs(ps: Seq<(ExprV, ExprV)>) -> Seq<ExprV> {
    Seq::new(ps.len(), |i: int| ExprV::Eq(Box::new(ps[i].0), Box::new(ps[i].1)))
}

/// An image added to the intern list, once.
pub open spec fn add_item(items: Seq<ExprV>, x: ExprV) -> Seq<ExprV> {
    if items.contains(x) {
        items
    } else {
        items.push(x)
    }
}

/// The distinct pair sides, in first-appearance order, each pair's left side
/// before its right.
pub open spec fn intern_items(ps: Seq<(ExprV, ExprV)>) -> Seq<ExprV>
    decreases ps.len(),
{
    if ps.len() == 0 {
        Seq::empty()
    } else {
        add_item(add_item(intern_items(ps.drop_last()), ps.last().0), ps.last().1)
    }
}

/// Whether the item opens its class: no earlier item is connected to it.
pub open spec fn class_root(preds: Seq<ExprV>, items: Seq<ExprV>, r: int) -> bool {
    forall|j: int| 0 <= j < r ==> !connected(preds, #[trigger] items[j], items[r])
}

/// The least index from `j` on whose item is connected to the item at `r`,
/// or the length when none is.
pub open spec fn first_partner(preds: Seq<ExprV>, items: Seq<ExprV>, r: int, j: int) -> int
    decreases (if j <= items.len() {
        items.len() - j
    } else {
        0
    }),
{
    if j < 0 || j >= items.len() {
        items.len() as int
    } else if connected(preds, items[r], items[j]) {
        j
    } else {
        first_partner(preds, items, r, j + 1)
    }
}

/// The canonical representative pairs among the first `hi` interned items:
/// each class-opening item with a later classmate pairs with the first one.
pub open spec fn canon_prefix(preds: Seq<ExprV>, items: Seq<ExprV>, hi: int) -> Seq<
    (ExprV, ExprV),
>
    decreases (if 0 <= hi {
        hi
    } else {
        0
    }),
{
    if hi <= 0 {
        Seq::empty()
    } else {
        let r = hi - 1;
        let rest = canon_prefix(preds, items, r);
        if class_root(preds, items, r) && first_partner(preds, items, r, r + 1) < items.len() {
            rest.push((items[r], items[first_partner(preds, items, r, r + 1)]))
        } else {
            rest
        }
    }
}

/// The canonical representative equalities of a list of key pairs: one per
/// multi-member class, each pairing the class's first-appearing side with its
/// second, ordered by first appearance.
pub open spec fn canon_reps(ps: Seq<(ExprV, ExprV)>) -> Seq<(ExprV, ExprV)> {
    canon_prefix(preds_of_pairs(ps), intern_items(ps), intern_items(ps).len() as int)
}


/// An index is its own root exactly when no smaller index shares its class.
proof fn lemma_root_iff_min(p: Seq<usize>, i: int)
    requires
        parents_decrease(p),
        0 <= i < p.len(),
    ensures
        (root_of(p, i) == i) <==> (forall|j: int| 0 <= j < i ==> root_of(p, j) != root_of(p, i)),
{
    lemma_root_props(p, i);
    if root_of(p, i) == i {
        assert forall|j: int| 0 <= j < i implies root_of(p, j) != root_of(p, i) by {
            lemma_root_props(p, j);
        }
    } else {
        let r = root_of(p, i);
        lemma_root_props(p, r);
        assert(root_of(p, r) == r);
    }
}

/// A scan that passes only unconnected items lands on the first connected
/// one.
proof fn lemma_first_partner_found(
    preds: Seq<ExprV>,
    items: Seq<ExprV>,
    r: int,
    j0: int,
    found: int,
)
    requires
        0 <= j0 <= found < items.len(),
        forall|t: int| j0 <= t < found ==> !connected(preds, items[r], #[trigger] items[t]),
        connected(preds, items[r], items[found]),
    ensures
        first_partner(preds, items, r, j0) == found,
    decreases found - j0,
{
    if j0 < found {
        lemma_first_partner_found(preds, items, r, j0 + 1, found);
    }
}

/// A scan that finds nothing lands past the end.
proof fn lemma_first_partner_none(preds: Seq<ExprV>, items: Seq<ExprV>, r: int, j0: int)
    requires
        0 <= j0,
        forall|t: int| j0 <= t < items.len() ==> !connected(preds, items[r], #[trigger] items[t]),
    ensures
        first_partner(preds, items, r, j0) == items.len(),
    decreases (if j0 <= items.len() {
        items.len() - j0
    } else {
        0
    }),
{
    if j0 < items.len() {
        lemma_first_partner_none(preds, items, r, j0 + 1);
    }
}

} // verus!
