//! The logical-plan model: operator nodes, schemas, and their encodings.

use vstd::prelude::*;
use crate::expr::{
    Column, ColumnV, ScalarExpr, ExprV, encode_col_view, encode_col_into, encode_expr_view,
    encode_expr_into,
};
use crate::hashing::{u64_le_bytes, push_u64_le, xxh3_of_str, xxh3_str};

verus! {

/// An output schema: the ordered list of columns an operator produces.
#[derive(Debug)]
pub struct Schema {
    pub fields: Vec<Column>,
}

impl View for Schema {
    type V = Seq<ColumnV>;

    open spec fn view(&self) -> Seq<ColumnV> {
        self.fields.deep_view()
    }
}

impl DeepView for Schema {
    type V = Seq<ColumnV>;

    open spec fn deep_view(&self) -> Seq<ColumnV> {
        self.view()
    }
}

/// Whether a schema field can stand for the column reference: the names
/// agree, and where the reference carries a table qualifier, the qualifiers
/// agree too.
pub open spec fn field_matches(field: ColumnV, c: ColumnV) -> bool {
    field.name == c.name && (c.relation is None || field.relation == c.relation)
}

/// Whether the column reference resolves against the schema.
pub open spec fn schema_resolves(s: Seq<ColumnV>, c: ColumnV) -> bool {
    exists|i: int| 0 <= i < s.len() && field_matches(s[i], c)
}

impl Schema {
    /// Builds a schema from its fields.
    pub fn new(fields: Vec<Column>) -> (r: Schema)
        ensures
            r@ == fields.deep_view(),
    {
        Schema { fields }
    }

    /// Structural copy; the copy has the same mathematical image.
    pub fn clone_schema(&self) -> (r: Schema)
        ensures
            r@ == self@,
    {
        let mut fields: Vec<Column> = Vec::new();
        let mut i: usize = 0;
        while i < self.fields.len()
            invariant
                i <= self.fields.len(),
                fields.deep_view() == self.fields.deep_view().take(i as int),
            decreases self.fields.len() - i,
        {
            fields.push(self.fields[i].clone_col());
            i = i + 1;
            proof {
                assert(fields.deep_view() =~= self.fields.deep_view().take(i as int));
            }
        }
        proof {
            assert(self.fields.deep_view().take(self.fields.len() as int) =~= self@);
        }
        Schema { fields }
    }

    /// Decides whether the column reference resolves against this schema.
    pub fn resolves(&self, c: &Column) -> (r: bool)
        ensures
            r == schema_resolves(self@, c@),
    {
        let mut i: usize = 0;
        while i < self.fields.len()
            invariant
                i <= self.fields.len(),
                forall|j: int| 0 <= j < i ==> !field_matches(self@[j], c@),
            decreases self.fields.len() - i,
        {
            let f = &self.fields[i];
            let name_ok = f.name == c.name;
            let rel_ok = match (&c.relation, &f.relation) {
                (None, _) => true,
                (Some(cr), Some(fr)) => cr.eq(fr),
                (Some(_), None) => false,
            };
            if name_ok && rel_ok {
                proof {
                    assert(field_matches(self@[i as int], c@));
                }
                return true;
            }
            i = i + 1;
        }
        false
    }
}

/// The output schema of an inner join: the left fields followed by the right
/// fields.
pub open spec fn join_schema_view(l: Seq<ColumnV>, r: Seq<ColumnV>) -> Seq<ColumnV> {
    l + r
}

/// Builds the output schema of an inner join of the two inputs.
pub fn build_join_schema(l: &Schema, r: &Schema) -> (out: Schema)
    ensures
        out@ == join_schema_view(l@, r@),
{
    let mut fields = l.clone_schema().fields;
    let mut i: usize = 0;
    while i < r.fields.len()
        invariant
            i <= r.fields.len(),
            fields.deep_view() == l@ + r@.take(i as int),
        decreases r.fields.len() - i,
    {
        let ghost pre = fields@;
        let ghost predv = fields.deep_view();
        let c = r.fields[i].clone_col();
        fields.push(c);
        i = i + 1;
        proof {
            assert(pre.len() == l@.len() + i - 1);
            assert(fields@.len() == l@.len() + i);
            assert forall|j: int| 0 <= j < fields@.len() implies fields.deep_view()[j] == (l@
                + r@.take(i as int))[j] by {
                assert(fields.deep_view()[j] == fields@[j].deep_view());
                if j < pre.len() {
                    assert(fields@[j] == pre[j]);
                    assert(predv[j] == pre[j].deep_view());
                    assert(predv[j] == (l@ + r@.take(i as int - 1))[j]);
                    assert((l@ + r@.take(i as int))[j] == (l@ + r@.take(i as int - 1))[j]);
                } else {
                    assert(fields@[j] == c);
                    assert((l@ + r@.take(i as int))[j] == r@[j - l@.len()]);
                }
            }
            assert(fields.deep_view() =~= l@ + r@.take(i as int));
        }
    }
    proof {
        assert(l@ + r@.take(r@.len() as int) =~= join_schema_view(l@, r@));
    }
    Schema { fields }
}

/// The join flavour an operator was built with.
#[derive(Debug, Clone, Copy, PartialEq, Eq, Structural)]
pub enum JoinType {
    Inner,
    Left,
    Right,
    Full,
}

/// How the join predicate was written down.
#[derive(Debug, Clone, Copy, PartialEq, Eq, Structural)]
pub enum JoinConstraint {
    On,
    Using,
}

/// A logical-plan operator node. Children are held in place for a source
/// plan; inside the memo an operator payload keeps its node but the operand
/// groups stand for the children. Multi-input set operators are not
/// modelled; the pass-through operators the schema walk tolerates are sorts
/// and limits.
#[derive(Debug)]
pub enum PlanNode {
    Projection { exprs: Vec<ScalarExpr>, schema: Schema, input: Box<PlanNode> },
    Filter { predicate: ScalarExpr, input: Box<PlanNode> },
    Join {
        left: Box<PlanNode>,
        right: Box<PlanNode>,
        on: Vec<(ScalarExpr, ScalarExpr)>,
        filter: Option<ScalarExpr>,
        join_type: JoinType,
        join_constraint: JoinConstraint,
        schema: Schema,
    },
    TableScan { table_name: String, projected_schema: Schema, fetch: Option<u64> },
    EmptyRelation { schema: Schema },
    Sort { input: Box<PlanNode> },
    Limit { input: Box<PlanNode> },
    Aggregate { schema: Schema, input: Box<PlanNode> },
}

/// Mathematical image of a plan node.
pub enum PlanV {
    Projection { exprs: Seq<ExprV>, schema: Seq<ColumnV>, input: Box<PlanV> },
    Filter { predicate: ExprV, input: Box<PlanV> },
    Join {
        left: Box<PlanV>,
        right: Box<PlanV>,
        on: Seq<(ExprV, ExprV)>,
        filter: Option<ExprV>,
        join_type: JoinType,
        join_constraint: JoinConstraint,
        schema: Seq<ColumnV>,
    },
    TableScan { table_name: Seq<char>, projected_schema: Seq<ColumnV>, fetch: Option<u64> },
    EmptyRelation { schema: Seq<ColumnV> },
    Sort { input: Box<PlanV> },
    Limit { input: Box<PlanV> },
    Aggregate { schema: Seq<ColumnV>, input: Box<PlanV> },
}

impl View for PlanNode {
    type V = PlanV;

    open spec fn view(&self) -> PlanV
        decreases self,
    {
        match self {
            PlanNode::Projection { exprs, schema, input } => PlanV::Projection {
                exprs: exprs.deep_view(),
                schema: schema@,
                input: Box::new((**input)@),
            },
            PlanNode::Filter { predicate, input } => PlanV::Filter {
                predicate: predicate@,
                input: Box::new((**input)@),
            },
            PlanNode::Join { left, right, on, filter, join_type, join_constraint, schema } => {
                PlanV::Join {
                    left: Box::new((**left)@),
                    right: Box::new((**right)@),
                    on: on.deep_view(),
                    filter: filter.deep_view(),
                    join_type: *join_type,
                    join_constraint: *join_constraint,
                    schema: schema@,
                }
            },
            PlanNode::TableScan { table_name, projected_schema, fetch } => PlanV::TableScan {
                table_name: table_name@,
                projected_schema: projected_schema@,
                fetch: *fetch,
            },
            PlanNode::EmptyRelation { schema } => PlanV::EmptyRelation { schema: schema@ },
            PlanNode::Sort { input } => PlanV::Sort { input: Box::new((**input)@) },
            PlanNode::Limit { input } => PlanV::Limit { input: Box::new((**input)@) },
            PlanNode::Aggregate { schema, input } => PlanV::Aggregate {
                schema: schema@,
                input: Box::new((**input)@),
            },
        }
    }
}

impl DeepView for PlanNode {
    type V = PlanV;

    open spec fn deep_view(&self) -> PlanV {
        self.view()
    }
}

/// The schema an operator presents, walking through pass-through operators
/// until a schema-carrying one is found.
pub open spec fn schema_of_view(p: PlanV) -> Option<Seq<ColumnV>>
    decreases p,
{
    match p {
        PlanV::Projection { schema, .. } => Some(schema),
        PlanV::Filter { input, .. } => schema_of_view(*input),
        PlanV::Aggregate { schema, .. } => Some(schema),
        PlanV::Join { schema, .. } => Some(schema),
        PlanV::Sort { input } => schema_of_view(*input),
        PlanV::TableScan { projected_schema, .. } => Some(projected_schema),
        PlanV::Limit { input } => schema_of_view(*input),
        PlanV::EmptyRelation { schema } => Some(schema),
    }
}

impl Default for PlanNode {
    /// An empty relation with no columns.
    fn default() -> (r: PlanNode)
        ensures
            r matches PlanNode::EmptyRelation { schema } && schema@ == Seq::<ColumnV>::empty(),
    {
        PlanNode::EmptyRelation { schema: Schema { fields: Vec::new() } }
    }
}

impl PlanNode {
    /// The schema this operator presents, walking through filters, sorts and
    /// limits down to a schema-carrying operator.
    pub fn schema_of(&self) -> (r: Option<Schema>)
        ensures
            r.deep_view() == schema_of_view(self@),
        decreases self,
    {
        match self {
            PlanNode::Projection { schema, .. } => Some(schema.clone_schema()),
            PlanNode::Filter { input, .. } => input.schema_of(),
            PlanNode::Aggregate { schema, .. } => Some(schema.clone_schema()),
            PlanNode::Join { schema, .. } => Some(schema.clone_schema()),
            PlanNode::Sort { input } => input.schema_of(),
            PlanNode::TableScan { projected_schema, .. } => Some(projected_schema.clone_schema()),
            PlanNode::Limit { input } => input.schema_of(),
            PlanNode::EmptyRelation { schema } => Some(schema.clone_schema()),
        }
    }

    /// Structural copy; the copy has the same mathematical image.
    pub fn clone_plan(&self) -> (r: PlanNode)
        ensures
            r@ == self@,
        decreases self,
    {
        match self {
            PlanNode::Projection { exprs, schema, input } => PlanNode::Projection {
                exprs: clone_exprs(exprs),
                schema: schema.clone_schema(),
                input: Box::new(input.clone_plan()),
            },
            PlanNode::Filter { predicate, input } => PlanNode::Filter {
                predicate: predicate.clone_expr(),
                input: Box::new(input.clone_plan()),
            },
            PlanNode::Join { left, right, on, filter, join_type, join_constraint, schema } => {
                PlanNode::Join {
                    left: Box::new(left.clone_plan()),
                    right: Box::new(right.clone_plan()),
                    on: clone_on(on),
                    filter: match filter {
                        Some(f) => Some(f.clone_expr()),
                        None => None,
                    },
                    join_type: *join_type,
                    join_constraint: *join_constraint,
                    schema: schema.clone_schema(),
                }
            },
            PlanNode::TableScan { table_name, projected_schema, fetch } => PlanNode::TableScan {
                table_name: table_name.clone(),
                projected_schema: projected_schema.clone_schema(),
                fetch: *fetch,
            },
            PlanNode::EmptyRelation { schema } => PlanNode::EmptyRelation {
                schema: schema.clone_schema(),
            },
            PlanNode::Sort { input } => PlanNode::Sort { input: Box::new(input.clone_plan()) },
            PlanNode::Limit { input } => PlanNode::Limit { input: Box::new(input.clone_plan()) },
            PlanNode::Aggregate { schema, input } => PlanNode::Aggregate {
                schema: schema.clone_schema(),
                input: Box::new(input.clone_plan()),
            },
        }
    }
}

/// Structural copy of an expression list.
pub(crate) fn clone_exprs(exprs: &Vec<ScalarExpr>) -> (r: Vec<ScalarExpr>)
    ensures
        r.deep_view() == exprs.deep_view(),
{
    let mut out: Vec<ScalarExpr> = Vec::new();
    let mut i: usize = 0;
    while i < exprs.len()
        invariant
            i <= exprs.len(),
            out.deep_view() == exprs.deep_view().take(i as int),
        decreases exprs.len() - i,
    {
        let ghost pre = out@;
        let c = exprs[i].clone_expr();
        out.push(c);
        i = i + 1;
        proof {
            assert(out@.len() == i);
            assert forall|j: int| 0 <= j < i implies out.deep_view()[j] == exprs.deep_view().take(
                i as int,
            )[j] by {
                assert(out.deep_view()[j] == out@[j].deep_view());
                assert(exprs.deep_view().take(i as int)[j] == exprs@[j].deep_view());
                if j == i - 1 {
                    assert(out@[j].deep_view() == exprs@[j].deep_view());
                } else {
                    assert(out@[j] == pre[j]);
                    assert(pre[j].deep_view() == exprs@[j].deep_view());
                }
            }
            assert(out.deep_view() =~= exprs.deep_view().take(i as int));
        }
    }
    proof {
        assert(exprs.deep_view().take(exprs.len() as int) =~= exprs.deep_view());
    }
    out
}

/// Structural copy of an equi-join key list.
pub(crate) fn clone_on(on: &Vec<(ScalarExpr, ScalarExpr)>) -> (r: Vec<(ScalarExpr, ScalarExpr)>)
    ensures
        r.deep_view() == on.deep_view(),
{
    let mut out: Vec<(ScalarExpr, ScalarExpr)> = Vec::new();
    let mut i: usize = 0;
    while i < on.len()
        invariant
            i <= on.len(),
            out.deep_view() == on.deep_view().take(i as int),
        decreases on.len() - i,
    {
        let pair = &on[i];
        out.push((pair.0.clone_expr(), pair.1.clone_expr()));
        i = i + 1;
        proof {
            assert(out.deep_view() =~= on.deep_view().take(i as int));
        }
    }
    proof {
        assert(on.deep_view().take(on.len() as int) =~= on.deep_view());
    }
    out
}

/// The byte a join flavour encodes to.
pub open spec fn join_type_byte(t: JoinType) -> u8 {
    match t {
        JoinType::Inner => 0u8,
        JoinType::Left => 1u8,
        JoinType::Right => 2u8,
        JoinType::Full => 3u8,
    }
}

/// The byte a join constraint encodes to.
pub open spec fn join_constraint_byte(c: JoinConstraint) -> u8 {
    match c {
        JoinConstraint::On => 0u8,
        JoinConstraint::Using => 1u8,
    }
}

/// The byte encoding of a schema: a leading marker word, then each field.
pub open spec fn encode_schema_view(s: Seq<ColumnV>) -> Seq<u8>
    decreases s.len(),
{
    if s.len() == 0 {
        u64_le_bytes(0)
    } else {
        encode_schema_view(s.drop_last()) + encode_col_view(s.last())
    }
}

/// The byte encoding of an expression list.
pub open spec fn encode_exprs_view(s: Seq<ExprV>) -> Seq<u8>
    decreases s.len(),
{
    if s.len() == 0 {
        u64_le_bytes(0)
    } else {
        encode_exprs_view(s.drop_last()) + encode_expr_view(s.last())
    }
}

/// The byte encoding of an operator payload, for fingerprinting. The operand
/// children do not enter: their group fingerprints are hashed separately. A
/// join's equi-join keys are deliberately left out, so that joins whose `on`
/// lists differ only by order or by flips share a fingerprint.
pub open spec fn encode_payload_view(p: PlanV) -> Seq<u8> {
    match p {
        PlanV::Projection { exprs, schema, .. } => seq![10u8] + encode_schema_view(schema)
            + encode_exprs_view(exprs),
        PlanV::Filter { predicate, .. } => seq![11u8] + encode_expr_view(predicate),
        PlanV::Join { filter, join_type, join_constraint, .. } => seq![12u8, join_type_byte(
            join_type,
        ), join_constraint_byte(join_constraint)] + (match filter {
            Some(f) => seq![1u8] + encode_expr_view(f),
            None => seq![0u8],
        }),
        PlanV::TableScan { table_name, projected_schema, fetch } => seq![13u8] + u64_le_bytes(
            xxh3_of_str(table_name),
        ) + encode_schema_view(projected_schema) + (match fetch {
            Some(n) => seq![1u8] + u64_le_bytes(n),
            None => seq![0u8],
        }),
        PlanV::EmptyRelation { .. } => seq![14u8],
        PlanV::Sort { .. } => seq![15u8],
        PlanV::Limit { .. } => seq![16u8],
        PlanV::Aggregate { .. } => seq![17u8],
    }
}

/// Appends the byte encoding of a schema to `out`.
fn encode_schema_into(s: &Schema, out: &mut Vec<u8>)
    ensures
        final(out)@ == old(out)@ + encode_schema_view(s@),
{
    push_u64_le(out, 0);
    let mut i: usize = 0;
    while i < s.fields.len()
        invariant
            i <= s.fields.len(),
            out@ == old(out)@ + encode_schema_view(s@.take(i as int)),
        decreases s.fields.len() - i,
    {
        proof {
            assert(s@.take(i as int + 1).drop_last() =~= s@.take(i as int));
            assert(s@.take(i as int + 1).last() == s@[i as int]);
        }
        encode_col_into(&s.fields[i], out);
        i = i + 1;
    }
    proof {
        assert(s@.take(s@.len() as int) =~= s@);
    }
}

/// Appends the byte encoding of an expression list to `out`.
fn encode_exprs_into(exprs: &Vec<ScalarExpr>, out: &mut Vec<u8>)
    ensures
        final(out)@ == old(out)@ + encode_exprs_view(exprs.deep_view()),
{
    push_u64_le(out, 0);
    let mut i: usize = 0;
    while i < exprs.len()
        invariant
            i <= exprs.len(),
            out@ == old(out)@ + encode_exprs_view(exprs.deep_view().take(i as int)),
        decreases exprs.len() - i,
    {
        proof {
            assert(exprs.deep_view().take(i as int + 1).drop_last() =~= exprs.deep_view().take(
                i as int,
            ));
            assert(exprs.deep_view().take(i as int + 1).last() == exprs.deep_view()[i as int]);
        }
        encode_expr_into(&exprs[i], out);
        i = i + 1;
    }
    proof {
        assert(exprs.deep_view().take(exprs.len() as int) =~= exprs.deep_view());
    }
}

/// Appends the byte encoding of an operator payload to `out`.
pub(crate) fn encode_payload_into(p: &PlanNode, out: &mut Vec<u8>)
    ensures
        final(out)@ == old(out)@ + encode_payload_view(p@),
{
    match p {
        PlanNode::Projection { exprs, schema, .. } => {
            out.push(10u8);
            encode_schema_into(schema, out);
            encode_exprs_into(exprs, out);
        },
        PlanNode::Filter { predicate, .. } => {
            out.push(11u8);
            encode_expr_into(predicate, out);
        },
        PlanNode::Join { filter, join_type, join_constraint, .. } => {
            out.push(12u8);
            out.push(
                match join_type {
                    JoinType::Inner => 0u8,
                    JoinType::Left => 1u8,
                    JoinType::Right => 2u8,
                    JoinType::Full => 3u8,
                },
            );
            out.push(
                match join_constraint {
                    JoinConstraint::On => 0u8,
                    JoinConstraint::Using => 1u8,
                },
            );
            match filter {
                Some(f) => {
                    out.push(1u8);
                    encode_expr_into(f, out);
                },
                None => {
                    out.push(0u8);
                },
            }
        },
        PlanNode::TableScan { table_name, projected_schema, fetch } => {
            out.push(13u8);
            let h = xxh3_str(table_name.as_str());
            push_u64_le(out, h);
            encode_schema_into(projected_schema, out);
            match fetch {
                Some(n) => {
                    out.push(1u8);
                    push_u64_le(out, *n);
                },
                None => {
                    out.push(0u8);
                },
            }
        },
        PlanNode::EmptyRelation { .. } => {
            out.push(14u8);
        },
        PlanNode::Sort { .. } => {
            out.push(15u8);
        },
        PlanNode::Limit { .. } => {
            out.push(16u8);
        },
        PlanNode::Aggregate { .. } => {
            out.push(17u8);
        },
    }
    proof {
        assert(out@ =~= old(out)@ + encode_payload_view(p@));
    }
}

} // verus!
