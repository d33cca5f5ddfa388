//! The scalar-expression model: columns, literals, equalities, conjunctions.

use vstd::prelude::*;
use crate::hashing::{xxh3_of_str, xxh3_str, u64_le_bytes, push_u64_le};

verus! {

/// A column reference: an optional table qualifier and a column name.
#[derive(Debug)]
pub struct Column {
    pub relation: Option<String>,
    pub name: String,
}

/// Mathematical image of a column reference.
pub struct ColumnV {
    pub relation: Option<Seq<char>>,
    pub name: Seq<char>,
}

impl View for Column {
    type V = ColumnV;

    open spec fn view(&self) -> ColumnV {
        ColumnV { relation: self.relation.deep_view(), name: self.name@ }
    }
}

impl DeepView for Column {
    type V = ColumnV;

    open spec fn deep_view(&self) -> ColumnV {
        self.view()
    }
}

impl Column {
    /// Builds a column reference.
    pub fn new(relation: Option<String>, name: String) -> (r: Column)
        ensures
            r@ == (ColumnV { relation: relation.deep_view(), name: name@ }),
    {
        Column { relation, name }
    }

    /// Structural copy; the copy has the same mathematical image.
    pub fn clone_col(&self) -> (r: Column)
        ensures
            r@ == self@,
    {
        Column {
            relation: match &self.relation {
                Some(s) => Some(s.clone()),
                None => None,
            },
            name: self.name.clone(),
        }
    }

    /// Decides whether two column references have the same image.
    pub fn eq_col(&self, other: &Column) -> (r: bool)
        ensures
            r == (self@ == other@),
    {
        let rel_eq: bool = match (&self.relation, &other.relation) {
            (Some(a), Some(b)) => a.eq(b),
            (None, None) => true,
            _ => false,
        };
        rel_eq && self.name == other.name
    }
}

/// A scalar expression: a column, a literal, a binary equality, or a
/// conjunction.
#[derive(Debug)]
pub enum ScalarExpr {
    Column(Column),
    LiteralBool(bool),
    LiteralInt(u64),
    Eq(Box<ScalarExpr>, Box<ScalarExpr>),
    And(Box<ScalarExpr>, Box<ScalarExpr>),
}

/// Mathematical image of a scalar expression.
pub enum ExprV {
    Column(ColumnV),
    LiteralBool(bool),
    LiteralInt(u64),
    Eq(Box<ExprV>, Box<ExprV>),
    And(Box<ExprV>, Box<ExprV>),
}

impl View for ScalarExpr {
    type V = ExprV;

    open spec fn view(&self) -> ExprV
        decreases self,
    {
        match self {
            ScalarExpr::Column(c) => ExprV::Column(c@),
            ScalarExpr::LiteralBool(b) => ExprV::LiteralBool(*b),
            ScalarExpr::LiteralInt(n) => ExprV::LiteralInt(*n),
            ScalarExpr::Eq(l, r) => ExprV::Eq(Box::new((**l)@), Box::new((**r)@)),
            ScalarExpr::And(l, r) => ExprV::And(Box::new((**l)@), Box::new((**r)@)),
        }
    }
}

impl DeepView for ScalarExpr {
    type V = ExprV;

    open spec fn deep_view(&self) -> ExprV {
        self.view()
    }
}

impl ScalarExpr {
    /// Structural copy; the copy has the same mathematical image.
    pub fn clone_expr(&self) -> (r: ScalarExpr)
        ensures
            r@ == self@,
        decreases self,
    {
        match self {
            ScalarExpr::Column(c) => ScalarExpr::Column(c.clone_col()),
            ScalarExpr::LiteralBool(b) => ScalarExpr::LiteralBool(*b),
            ScalarExpr::LiteralInt(n) => ScalarExpr::LiteralInt(*n),
            ScalarExpr::Eq(l, r) => ScalarExpr::Eq(
                Box::new(l.clone_expr()),
                Box::new(r.clone_expr()),
            ),
            ScalarExpr::And(l, r) => ScalarExpr::And(
                Box::new(l.clone_expr()),
                Box::new(r.clone_expr()),
            ),
        }
    }

    /// Decides whether two expressions have the same image.
    pub fn eq_expr(&self, other: &ScalarExpr) -> (r: bool)
        ensures
            r == (self@ == other@),
        decreases self,
    {
        match (self, other) {
            (ScalarExpr::Column(a), ScalarExpr::Column(b)) => a.eq_col(b),
            (ScalarExpr::LiteralBool(a), ScalarExpr::LiteralBool(b)) => a == b,
            (ScalarExpr::LiteralInt(a), ScalarExpr::LiteralInt(b)) => a == b,
            (ScalarExpr::Eq(l1, r1), ScalarExpr::Eq(l2, r2)) => l1.eq_expr(l2) && r1.eq_expr(r2),
            (ScalarExpr::And(l1, r1), ScalarExpr::And(l2, r2)) => l1.eq_expr(l2) && r1.eq_expr(r2),
            _ => false,
        }
    }
}

/// The image of an equality with its sides swapped; any other image is left
/// as it is.
pub open spec fn flip_view(e: ExprV) -> ExprV {
    match e {
        ExprV::Eq(l, r) => ExprV::Eq(r, l),
        _ => e,
    }
}

/// Swaps the two sides of a binary equality; any other expression comes back
/// unchanged.
pub fn flip_equality(expr: &ScalarExpr) -> (r: ScalarExpr)
    ensures
        r@ == flip_view(expr@),
{
    match expr {
        ScalarExpr::Eq(l, r) => ScalarExpr::Eq(Box::new(r.clone_expr()), Box::new(l.clone_expr())),
        _ => expr.clone_expr(),
    }
}

/// Flipping an equality twice restores it, and flipping any other expression
/// never changes it.
pub proof fn lemma_flip_involutive(e: ExprV)
    ensures
        flip_view(flip_view(e)) == e,
        !(e is Eq) ==> flip_view(e) == e,
{
}

/// Whether the image is a binary equality.
pub open spec fn is_eq_view(e: ExprV) -> bool {
    e is Eq
}

/// The flattened conjuncts of an expression: a conjunction contributes the
/// conjuncts of both sides in order, anything else stands alone.
pub open spec fn split_conj_view(e: ExprV) -> Seq<ExprV>
    decreases e,
{
    match e {
        ExprV::And(l, r) => split_conj_view(*l) + split_conj_view(*r),
        _ => seq![e],
    }
}

/// Flattens nested conjunctions into the list of conjuncts.
pub fn split_conjunction(e: &ScalarExpr) -> (r: Vec<ScalarExpr>)
    ensures
        r.deep_view() == split_conj_view(e@),
{
    let mut out: Vec<ScalarExpr> = Vec::new();
    split_conjunction_into(e, &mut out);
    out
}

fn split_conjunction_into(e: &ScalarExpr, out: &mut Vec<ScalarExpr>)
    ensures
        final(out).deep_view() == old(out).deep_view() + split_conj_view(e@),
    decreases e,
{
    match e {
        ScalarExpr::And(l, r) => {
            split_conjunction_into(l, out);
            split_conjunction_into(r, out);
            proof {
                assert(out.deep_view() =~= old(out).deep_view() + split_conj_view(e@));
            }
        },
        _ => {
            out.push(e.clone_expr());
            proof {
                assert(out.deep_view() =~= old(out).deep_view() + split_conj_view(e@));
            }
        },
    }
}

/// The left fold of a list of conjuncts back into one conjunction.
pub open spec fn conjunction_view(s: Seq<ExprV>) -> Option<ExprV>
    decreases s.len(),
{
    if s.len() == 0 {
        None
    } else if s.len() == 1 {
        Some(s[0])
    } else {
        match conjunction_view(s.drop_last()) {
            Some(acc) => Some(ExprV::And(Box::new(acc), Box::new(s.last()))),
            None => Some(s.last()),
        }
    }
}

/// Re-joins a list of conjuncts into a single conjunction, left to right;
/// an empty list yields nothing.
pub fn conjunction(exprs: &Vec<ScalarExpr>) -> (r: Option<ScalarExpr>)
    ensures
        r.deep_view() == conjunction_view(exprs.deep_view()),
{
    let mut i: usize = 0;
    let mut acc: Option<ScalarExpr> = None;
    while i < exprs.len()
        invariant
            i <= exprs.len(),
            acc.deep_view() == conjunction_view(exprs.deep_view().take(i as int)),
        decreases exprs.len() - i,
    {
        let next = exprs[i].clone_expr();
        acc = match acc {
            Some(a) => Some(ScalarExpr::And(Box::new(a), Box::new(next))),
            None => Some(next),
        };
        i = i + 1;
        proof {
            assert(exprs.deep_view().take(i as int).drop_last() =~= exprs.deep_view().take(
                i as int - 1,
            ));
        }
    }
    proof {
        assert(exprs.deep_view().take(exprs.len() as int) =~= exprs.deep_view());
    }
    acc
}

/// The byte encoding of an image, for fingerprinting. Strings enter through
/// their hash; the encoding is a function of the image alone.
pub open spec fn encode_expr_view(e: ExprV) -> Seq<u8>
    decreases e,
{
    match e {
        ExprV::Column(c) => seq![1u8] + encode_col_view(c),
        ExprV::LiteralBool(b) => seq![2u8, if b { 1u8 } else { 0u8 }],
        ExprV::LiteralInt(n) => seq![3u8] + u64_le_bytes(n),
        ExprV::Eq(l, r) => seq![4u8] + encode_expr_view(*l) + encode_expr_view(*r),
        ExprV::And(l, r) => seq![5u8] + encode_expr_view(*l) + encode_expr_view(*r),
    }
}

/// The byte encoding of a column image.
pub open spec fn encode_col_view(c: ColumnV) -> Seq<u8> {
    match c.relation {
        Some(rel) => seq![1u8] + u64_le_bytes(xxh3_of_str(rel)) + u64_le_bytes(
            xxh3_of_str(c.name),
        ),
        None => seq![0u8] + u64_le_bytes(xxh3_of_str(c.name)),
    }
}

/// Appends the byte encoding of a column to `out`.
pub(crate) fn encode_col_into(c: &Column, out: &mut Vec<u8>)
    ensures
        final(out)@ == old(out)@ + encode_col_view(c@),
{
    match &c.relation {
        Some(rel) => {
            out.push(1u8);
            let h = xxh3_str(rel.as_str());
            push_u64_le(out, h);
            let h2 = xxh3_str(c.name.as_str());
            push_u64_le(out, h2);
            proof {
                assert(out@ =~= old(out)@ + encode_col_view(c@));
            }
        },
        None => {
            out.push(0u8);
            let h = xxh3_str(c.name.as_str());
            push_u64_le(out, h);
            proof {
                assert(out@ =~= old(out)@ + encode_col_view(c@));
            }
        },
    }
}

/// Appends the byte encoding of an expression to `out`.
pub(crate) fn encode_expr_into(e: &ScalarExpr, out: &mut Vec<u8>)
    ensures
        final(out)@ == old(out)@ + encode_expr_view(e@),
    decreases e,
{
    match e {
        ScalarExpr::Column(c) => {
            out.push(1u8);
            encode_col_into(c, out);
        },
        ScalarExpr::LiteralBool(b) => {
            out.push(2u8);
            out.push(if *b {
                1u8
            } else {
                0u8
            });
        },
        ScalarExpr::LiteralInt(n) => {
            out.push(3u8);
            push_u64_le(out, *n);
        },
        ScalarExpr::Eq(l, r) => {
            out.push(4u8);
            encode_expr_into(l, out);
            encode_expr_into(r, out);
        },
        ScalarExpr::And(l, r) => {
            out.push(5u8);
            encode_expr_into(l, out);
            encode_expr_into(r, out);
        },
    }
    proof {
        assert(out@ =~= old(out)@ + encode_expr_view(e@));
    }
}

} // verus!
