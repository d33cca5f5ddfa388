use cascades::cascades::{Cascades, OptimizerError};
use cascades::expr::{Column, ScalarExpr, flip_equality};
use cascades::expression_utils::infer_equalities;
use cascades::group::Group;
use cascades::mexpr::{MExpr, u64_to_dec, default_selectivities};
use cascades::plan::{PlanNode, Schema, JoinType, JoinConstraint, build_join_schema};

fn table_col(t: usize) -> Column {
    Column { relation: Some(format!("t{}", t)), name: format!("a{}", t) }
}

fn scan(t: usize, rows: u64) -> PlanNode {
    PlanNode::TableScan {
        table_name: format!("t{}", t),
        projected_schema: Schema { fields: vec![table_col(t)] },
        fetch: Some(rows),
    }
}

fn plan_schema(p: &PlanNode) -> Schema {
    p.schema_of().expect("schema expected")
}

fn join(left: PlanNode, right: PlanNode, lt: usize, rt: usize) -> PlanNode {
    let schema = build_join_schema(&plan_schema(&left), &plan_schema(&right));
    PlanNode::Join {
        left: Box::new(left),
        right: Box::new(right),
        on: vec![
            (
                ScalarExpr::Column(table_col(lt)),
                ScalarExpr::Column(table_col(rt)),
            ),
        ],
        filter: None,
        join_type: JoinType::Inner,
        join_constraint: JoinConstraint::On,
        schema,
    }
}

/// A left-deep chain of inner joins over scans t1..tn, topped by a projection.
fn chain_plan(counts: &[u64]) -> PlanNode {
    let mut plan = scan(1, counts[0]);
    for (i, c) in counts.iter().enumerate().skip(1) {
        let t = i + 1;
        plan = join(plan, scan(t, *c), t - 1, t);
    }
    PlanNode::Projection {
        exprs: vec![ScalarExpr::LiteralInt(1)],
        schema: Schema { fields: vec![Column { relation: None, name: "one".to_string() }] },
        input: Box::new(plan),
    }
}

fn group_min_cost(g: &Group) -> Option<u64> {
    let mut best: Option<u64> = None;
    for m in g.equivalent_logical_mexprs.iter() {
        let c = m.cost;
        best = match (c, best) {
            (Some(x), Some(y)) => Some(x.min(y)),
            (Some(x), None) => Some(x),
            (None, b) => b,
        };
    }
    best
}

fn check_all_groups_done(c: &Cascades) {
    for g in c.groups.iter() {
        assert!(g.is_explored());
        assert_eq!(g.unexplored_equivalent_logical_mexprs.len(), 0);
        assert_eq!(g.min_cost, group_min_cost(g));
    }
}

#[test]
fn test_two_way_join() {
    let plan = chain_plan(&[100, 200]);
    let mut c = Cascades::new();
    let root = c.gen_group_logical_plan(&plan).expect("interned");
    assert!(!c.groups[root].is_explored());
    c.optimize(root);
    assert!(c.groups[root].is_explored());
    // t1, t2, the join, its commutation, and the projection: five entries.
    assert!(c.get_memo().len() >= 5);
    let cheapest = c.groups[root].cheapest_logical_expression.as_ref().expect("cheapest");
    let join_gid = cheapest.operands[0];
    assert_eq!(c.groups[join_gid].get_group_row_count(), 20);
    check_all_groups_done(&c);
}

#[test]
fn test_two_way_join_commutation_pair() {
    // Commutativity fills the join's class with both operand orders.
    let plan = chain_plan(&[100, 200]);
    let mut c = Cascades::new();
    let root = c.gen_group_logical_plan(&plan).expect("interned");
    c.optimize(root);
    let cheapest = c.groups[root].cheapest_logical_expression.as_ref().unwrap();
    let join_gid = cheapest.operands[0];
    let eqs = &c.groups[join_gid].equivalent_logical_mexprs;
    assert!(eqs.len() >= 2);
    let a = &eqs[0];
    let b = &eqs[1];
    assert_eq!(a.operands[0], b.operands[1]);
    assert_eq!(a.operands[1], b.operands[0]);
    assert_ne!(a.hash, b.hash);
}

#[test]
fn test_three_way_left_deep() {
    let plan = chain_plan(&[100, 200, 30]);
    let mut c = Cascades::new();
    let root = c.gen_group_logical_plan(&plan).expect("interned");
    c.optimize(root);
    let cheapest = c.groups[root].cheapest_logical_expression.as_ref().unwrap();
    let top_gid = cheapest.operands[0];
    let eqs = &c.groups[top_gid].equivalent_logical_mexprs;
    // At least the seed, its commutation, and the right-nested reshape.
    assert!(eqs.len() >= 3, "top join class holds {} members", eqs.len());
    // The seed plan is never beaten by the cached minimum.
    let seed_cost = eqs[0].cost.unwrap();
    assert!(c.groups[top_gid].min_cost.unwrap() <= seed_cost);
    check_all_groups_done(&c);

    // The transitive equality across the chain is inferred even though it is
    // not written in the plan.
    let preds = vec![
        ScalarExpr::Eq(
            Box::new(ScalarExpr::Column(table_col(1))),
            Box::new(ScalarExpr::Column(table_col(2))),
        ),
        ScalarExpr::Eq(
            Box::new(ScalarExpr::Column(table_col(2))),
            Box::new(ScalarExpr::Column(table_col(3))),
        ),
    ];
    let inferred = infer_equalities(&preds);
    let wanted = ScalarExpr::Eq(
        Box::new(ScalarExpr::Column(table_col(1))),
        Box::new(ScalarExpr::Column(table_col(3))),
    );
    let flipped = flip_equality(&wanted);
    assert!(inferred.iter().any(|e| e.eq_expr(&wanted) || e.eq_expr(&flipped)));
}

#[test]
fn test_fingerprint_stability() {
    // Two independent constructions of the same plan intern to the same group.
    let plan = chain_plan(&[100, 200]);
    let plan2 = chain_plan(&[100, 200]);
    let mut c = Cascades::new();
    let root = c.gen_group_logical_plan(&plan).expect("interned");
    let before = c.get_memo().len();
    let root2 = c.gen_group_logical_plan(&plan2).expect("interned");
    assert_eq!(root, root2);
    assert_eq!(c.get_memo().len(), before);

    // The same holds at the expression level.
    let m1 = MExpr::build_with_node(scan(1, 7), vec![], &c.groups);
    let m2 = MExpr::build_with_node(scan(1, 7), vec![], &c.groups);
    assert_eq!(m1.hash, m2.hash);
    let m3 = MExpr::build_with_node(scan(2, 7), vec![], &c.groups);
    assert_ne!(m1.hash, m3.hash);
}

#[test]
fn test_cost_ordering_four_tables() {
    let plan = chain_plan(&[100, 200, 30, 400]);
    let mut c = Cascades::new();
    let root = c.gen_group_logical_plan(&plan).expect("interned");
    c.optimize(root);
    check_all_groups_done(&c);
    // The cached minimum must match the least member cost in every group, and
    // never exceed the left-deep seed's cost.
    let cheapest = c.groups[root].cheapest_logical_expression.as_ref().unwrap();
    let top_gid = cheapest.operands[0];
    let seed_cost = c.groups[top_gid].equivalent_logical_mexprs[0].cost.unwrap();
    let min_cost = c.groups[top_gid].min_cost.unwrap();
    assert!(min_cost <= seed_cost);
    // The search explored genuine alternatives to compare against.
    assert!(c.groups[top_gid].equivalent_logical_mexprs.len() >= 3);
    // The cached minimum really is the least cost over every alternative.
    for m in c.groups[top_gid].equivalent_logical_mexprs.iter() {
        assert!(min_cost <= m.cost.unwrap());
    }
}

#[test]
fn test_termination_chain() {
    for n in 2..=6usize {
        let counts: Vec<u64> = (0..n).map(|i| 50 + 10 * i as u64).collect();
        let plan = chain_plan(&counts);
        let mut c = Cascades::new();
        let root = c.gen_group_logical_plan(&plan).expect("interned");
        c.optimize(root);
        assert!(c.groups[root].is_explored());
        check_all_groups_done(&c);
    }
}

#[test]
fn test_unsupported_operator() {
    let plan = PlanNode::Sort { input: Box::new(scan(1, 10)) };
    let mut c = Cascades::new();
    let r = c.gen_group_logical_plan(&plan);
    assert_eq!(r, Err(OptimizerError::UnsupportedOperator));
}

#[test]
fn test_filter_and_projection_cost() {
    // Filter keeps a tenth of the rows; each operator adds its per-row cost.
    let plan = PlanNode::Projection {
        exprs: vec![ScalarExpr::LiteralInt(1)],
        schema: Schema { fields: vec![Column { relation: None, name: "one".to_string() }] },
        input: Box::new(PlanNode::Filter {
            predicate: ScalarExpr::LiteralBool(true),
            input: Box::new(scan(1, 100)),
        }),
    };
    let mut c = Cascades::new();
    let root = c.gen_group_logical_plan(&plan).expect("interned");
    c.optimize(root);
    let proj = c.groups[root].cheapest_logical_expression.as_ref().unwrap();
    let filter_gid = proj.operands[0];
    // Scan: 100 rows at cost 100. Filter: 10 rows, cost 10 + 100 = 110.
    assert_eq!(c.groups[filter_gid].get_group_row_count(), 10);
    assert_eq!(c.groups[filter_gid].get_group_cost(), 110);
    // Projection: 10 rows, cost 10 + 110 = 120.
    assert_eq!(proj.row_count, 10);
    assert_eq!(proj.cost, Some(120));
}

#[test]
fn test_join_selectivity_product() {
    let table = default_selectivities();
    let on = vec![
        (
            ScalarExpr::Column(table_col(1)),
            ScalarExpr::Column(table_col(2)),
        ),
    ];
    let (num, den) = MExpr::get_join_selectivity(&on, &table);
    assert_eq!(num, 1);
    assert_eq!(den, 1000);
    // An unknown pair reduces nothing.
    let on2 = vec![
        (
            ScalarExpr::Column(table_col(7)),
            ScalarExpr::Column(table_col(8)),
        ),
    ];
    let (num2, den2) = MExpr::get_join_selectivity(&on2, &table);
    assert_eq!((num2, den2), (1, 1));
}

#[test]
fn test_source_node_group() {
    let g = Group::get_source_node_group("A".to_string());
    assert!(g.source_node.is_some());
    assert_eq!(g.source_node.as_ref().unwrap().node_id, "A");
    let g2 = Group::get_source_node_group("A".to_string());
    assert_eq!(g.get_group_hash(), g2.get_group_hash());
    let g3 = Group::get_source_node_group("B".to_string());
    assert_ne!(g.get_group_hash(), g3.get_group_hash());
}

#[test]
fn test_decimal_rendering() {
    assert_eq!(u64_to_dec(0), "0");
    assert_eq!(u64_to_dec(7), "7");
    assert_eq!(u64_to_dec(12345), "12345");
    assert_eq!(u64_to_dec(u64::MAX), "18446744073709551615");
}

#[test]
fn test_canonicalized_is_decimal_hash() {
    let c = Cascades::new();
    let m = MExpr::build_with_node(scan(1, 5), vec![], &c.groups);
    assert_eq!(m.canonicalized, u64_to_dec(m.hash));
}

// An unexplored group reports its start expression's row count, which a
// freshly built expression pins at the largest value so that it loses every
// comparison; its cost is unknown and reads as zero.
fn verify_row_count(plan: PlanNode, expected_row_count: u64, expected_cost: u64) {
    let c = Cascades::new();
    let mexpr = MExpr::build_with_node(plan, vec![], &c.groups);
    let group = Group::new(mexpr);
    let row_count = group.get_group_row_count();
    println!("Group row count: {}", row_count);
    assert_eq!(row_count, expected_row_count);
    assert_eq!(group.get_group_cost(), expected_cost);
}

#[test]
fn test_empty_relation() {
    let logical_plan = PlanNode::EmptyRelation { schema: Schema { fields: Vec::new() } };
    verify_row_count(logical_plan, u64::MAX, 0);
}

#[test]
fn test_default() {
    verify_row_count(PlanNode::default(), u64::MAX, 0);
}

#[test]
fn test_simple_logical_plan() {
    let logical_plan = chain_plan(&[100, 200, 30, 400]);
    let plan_string = cascades::planprinter::custom_print(&logical_plan);
    println!("Plan string {}", plan_string);
    verify_row_count(logical_plan, u64::MAX, 0);
}

#[test]
fn test_source_node_creation() {
    let source_group = Group::get_source_node_group("A".to_string());

    assert!(source_group.source_node.is_some());
    assert_eq!(source_group.source_node.as_ref().unwrap().node_id, "A");

    println!("Test passed: Source node creation works correctly");
}
