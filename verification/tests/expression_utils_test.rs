use cascades::expr::{Column, ScalarExpr, flip_equality};
use cascades::expression_utils::{infer_equalities, get_unique_equalities, contains_eq_mod_flip};

fn col(name: &str) -> ScalarExpr {
    ScalarExpr::Column(Column { relation: None, name: name.to_string() })
}

fn eq(l: &ScalarExpr, r: &ScalarExpr) -> ScalarExpr {
    ScalarExpr::Eq(Box::new(l.clone_expr()), Box::new(r.clone_expr()))
}

fn contains(list: &Vec<ScalarExpr>, e: &ScalarExpr) -> bool {
    list.iter().any(|x| x.eq_expr(e))
}

#[test]
fn test_infer_equalities() {
    // Input expressions: a = b, b = c, c = d
    let a = col("a");
    let b = col("b");
    let c = col("c");
    let d = col("d");

    let equalities = vec![eq(&a, &b), eq(&b, &c), eq(&c, &d)];

    let inferred = infer_equalities(&equalities);

    // Expected inferred equalities
    let expected = vec![eq(&a, &c), eq(&a, &d), eq(&b, &d)];

    println!("Inferred Equalities: {:?}", inferred);

    for expr in &expected {
        assert!(contains(&inferred, expr), "Missing expected equality: {:?}", expr);
    }

    // Ensure no extra equalities are inferred
    assert_eq!(inferred.len(), expected.len());
}

#[test]
fn expression_utils_test_test_infer_equalities() {
    // Input expressions: a = b, b = c, c = d, c = e
    let a = col("a");
    let b = col("b");
    let c = col("c");
    let d = col("d");
    let e = col("e");

    let equalities = vec![eq(&a, &b), eq(&b, &c), eq(&c, &d), eq(&c, &e)];

    let inferred = infer_equalities(&equalities);

    // Some of the expected inferred equalities
    let expected = vec![eq(&a, &c), eq(&a, &d), eq(&b, &d)];

    println!("Inferred Equalities: {:?}", inferred);

    for expr in &expected {
        let flipped = flip_equality(expr);
        assert!(
            contains(&inferred, expr) || contains(&inferred, &flipped),
            "Missing expected equality: {:?} (or flipped: {:?})",
            expr,
            flipped
        );
    }
}

#[test]
fn test_infer_equalities_exact_five() {
    // Input {a=b, b=c, c=d, c=e} infers exactly {a=c, a=d, a=e, b=d, b=e, d=e},
    // up to flips.
    let a = col("a");
    let b = col("b");
    let c = col("c");
    let d = col("d");
    let e = col("e");

    let equalities = vec![eq(&a, &b), eq(&b, &c), eq(&c, &d), eq(&c, &e)];
    let inferred = infer_equalities(&equalities);

    let expected = vec![eq(&a, &c), eq(&a, &d), eq(&a, &e), eq(&b, &d), eq(&b, &e), eq(&d, &e)];
    for expr in &expected {
        let flipped = flip_equality(expr);
        assert!(contains(&inferred, expr) || contains(&inferred, &flipped));
    }
    assert_eq!(inferred.len(), expected.len());
}

#[test]
fn test_infer_equalities_saturates() {
    // Inferring again over the input together with the first round's output
    // yields nothing new.
    let a = col("a");
    let b = col("b");
    let c = col("c");

    let equalities = vec![eq(&a, &b), eq(&b, &c)];
    let inferred = infer_equalities(&equalities);
    assert_eq!(inferred.len(), 1);

    let mut combined = Vec::new();
    for e in &equalities {
        combined.push(e.clone_expr());
    }
    for e in &inferred {
        combined.push(e.clone_expr());
    }
    let second = infer_equalities(&combined);
    assert_eq!(second.len(), 0);
}

#[test]
fn test_flip_equality_involutive() {
    let a = col("a");
    let b = col("b");
    let e = eq(&a, &b);
    let twice = flip_equality(&flip_equality(&e));
    assert!(twice.eq_expr(&e));

    // Flipping anything that is not an equality changes nothing.
    let lone = col("a");
    assert!(flip_equality(&lone).eq_expr(&lone));
}

#[test]
fn test_get_unique_equalities_one_per_class() {
    // Two classes: {a, b, c} and {d, e}; one representative pair each.
    let a = col("a");
    let b = col("b");
    let c = col("c");
    let d = col("d");
    let e = col("e");

    let pairs = vec![
        (a.clone_expr(), b.clone_expr()),
        (b.clone_expr(), c.clone_expr()),
        (d.clone_expr(), e.clone_expr()),
    ];
    let reps = get_unique_equalities(&pairs);
    assert_eq!(reps.len(), 2);
    assert!(!reps[0].0.eq_expr(&reps[1].0));
}

#[test]
fn test_contains_eq_mod_flip() {
    let a = col("a");
    let b = col("b");
    let preds = vec![eq(&a, &b)];
    assert!(contains_eq_mod_flip(&preds, &a, &b));
    assert!(contains_eq_mod_flip(&preds, &b, &a));
    assert!(!contains_eq_mod_flip(&preds, &a, &a));
}
