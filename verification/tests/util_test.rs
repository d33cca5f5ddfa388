use cascades::cascades::Cascades;
use cascades::expr::{Column, ScalarExpr};
use cascades::plan::{PlanNode, Schema, JoinType, JoinConstraint, build_join_schema};
use cascades::planprinter::{PlanStringBuilder, custom_print};
use cascades::util::{get_cartesian_product, get_all_possible_trees, get_all_possible_trees_count, get_cheapest_tree};

fn table_col(t: usize) -> Column {
    Column { relation: Some(format!("t{}", t)), name: format!("a{}", t) }
}

fn scan(t: usize, rows: u64) -> PlanNode {
    PlanNode::TableScan {
        table_name: format!("t{}", t),
        projected_schema: Schema { fields: vec![table_col(t)] },
        fetch: Some(rows),
    }
}

fn two_way_plan() -> PlanNode {
    let left = scan(1, 100);
    let right = scan(2, 200);
    let schema = build_join_schema(
        &left.schema_of().unwrap(),
        &right.schema_of().unwrap(),
    );
    PlanNode::Join {
        left: Box::new(left),
        right: Box::new(right),
        on: vec![
            (
                ScalarExpr::Column(table_col(1)),
                ScalarExpr::Column(table_col(2)),
            ),
        ],
        filter: None,
        join_type: JoinType::Inner,
        join_constraint: JoinConstraint::On,
        schema,
    }
}

#[test]
fn test_cartesian_product() {
    let lists = vec![
        vec!["a".to_string(), "b".to_string()],
        vec!["c".to_string()],
    ];
    let r = get_cartesian_product(&lists);
    assert_eq!(r, vec!["a c".to_string(), "b c".to_string()]);

    let empty: Vec<Vec<String>> = Vec::new();
    assert_eq!(get_cartesian_product(&empty), vec![String::new()]);
}

#[test]
fn test_all_possible_trees() {
    let plan = two_way_plan();
    let mut c = Cascades::new();
    let root = c.gen_group_logical_plan(&plan).unwrap();
    c.optimize(root);
    let fuel = c.groups.len() + 1;
    let trees = get_all_possible_trees(&c.groups, root, fuel);
    // Both join orders of the two scans.
    assert!(trees.len() >= 2, "trees: {:?}", trees);
    assert!(trees.iter().any(|t| t.contains("t1") && t.contains("t2")));
    let count = get_all_possible_trees_count(&c.groups, root, fuel);
    assert_eq!(count as usize, trees.len());
}

#[test]
fn test_cheapest_tree_rendering() {
    let plan = two_way_plan();
    let mut c = Cascades::new();
    let root = c.gen_group_logical_plan(&plan).unwrap();
    c.optimize(root);
    let fuel = c.groups.len() + 1;
    let rendered = get_cheapest_tree(&c.groups, root, fuel);
    assert!(rendered.contains("JOIN"), "rendered: {}", rendered);
    assert!(rendered.contains("RowCount 20"), "rendered: {}", rendered);
    assert!(rendered.contains("TABLE_SCAN: t1"), "rendered: {}", rendered);
}

#[test]
fn test_plan_string_builder() {
    let mut b = PlanStringBuilder::new();
    b.add_line("root");
    b.increase_depth();
    b.add_line("child");
    b.decrease_depth();
    b.decrease_depth();
    b.add_line("top");
    assert_eq!(b.get_output(), "root\n  child\ntop\n");
}

#[test]
fn test_custom_print() {
    let plan = two_way_plan();
    let out = custom_print(&plan);
    assert_eq!(out, "JOIN\n  TABLE_SCAN: t1\n  TABLE_SCAN: t2\n");
}
