use dep_tree::{DepId, DepTree, DepTreeBuilder, DepTreeBuilderError};

fn unit(n: u64) -> DepId {
    (n, 0)
}

fn expect_tree(built: Result<Box<DepTree>, DepTreeBuilderError>) -> Box<DepTree> {
    match built {
        Ok(tree) => tree,
        Err(e) => panic!("edges were refused: {}", e.to_string()),
    }
}

fn expect_error(built: Result<Box<DepTree>, DepTreeBuilderError>) -> DepTreeBuilderError {
    match built {
        Ok(_) => panic!("edges were accepted"),
        Err(e) => e,
    }
}

#[test]
fn empty_builder_gives_empty_graph() {
    let tree = expect_tree(DepTreeBuilder::new().build());
    assert!(tree.most_dependencies().is_empty());
    assert!(tree.most_dependents().is_empty());
    assert!(tree.dependencies_of(unit(1)).is_empty());
    assert!(tree.dependents_of(unit(1)).is_empty());
}

#[test]
fn default_builder_is_empty() {
    let tree = expect_tree(DepTreeBuilder::default().build());
    assert!(tree.least_dependents().is_empty());
}

#[test]
fn edges_without_cycle_are_accepted() {
    let tree = expect_tree(
        DepTreeBuilder::new()
            .with_dep(unit(1), vec![unit(2), unit(3)])
            .with_dep(unit(2), vec![unit(3)])
            .with_dep(unit(3), vec![])
            .build(),
    );
    assert_eq!(tree.dependencies_of(unit(1)), vec![unit(2), unit(3)]);
    assert_eq!(tree.dependencies_of(unit(2)), vec![unit(3)]);
    assert_eq!(tree.dependencies_of(unit(3)), Vec::<DepId>::new());
}

#[test]
fn dependency_may_be_named_before_it_is_declared() {
    let tree = expect_tree(
        DepTreeBuilder::new()
            .with_dep(unit(1), vec![unit(9)])
            .with_dep(unit(9), vec![unit(4)])
            .build(),
    );
    assert_eq!(tree.dependencies_of(unit(1)), vec![unit(9), unit(4)]);
}

#[test]
fn with_dep_appends_to_an_earlier_declaration() {
    let mut builder = DepTreeBuilder::new();
    builder.with_dep(unit(1), vec![unit(2)]);
    builder.with_dep(unit(5), vec![]);
    builder.with_dep(unit(1), vec![unit(3), unit(2)]);
    let tree = expect_tree(builder.build());
    // the list of unit 1 is now [2, 3, 2]: three edges
    assert_eq!(tree.dependencies_of(unit(1)), vec![unit(2), unit(3)]);
    assert_eq!(
        tree.most_dependencies(),
        vec![(unit(1), 3), (unit(5), 0)]
    );
}

#[test]
fn with_dep_hands_back_the_same_edges() {
    let mut builder = DepTreeBuilder::new();
    let handle = builder.with_dep(unit(1), vec![unit(2)]);
    let from_handle = expect_tree(handle.build());
    let from_builder = expect_tree(builder.build());
    assert_eq!(from_handle.dependencies_of(unit(1)), vec![unit(2)]);
    assert_eq!(from_builder.dependencies_of(unit(1)), vec![unit(2)]);
}

#[test]
fn self_dependency_is_reported() {
    let e = expect_error(DepTreeBuilder::new().with_dep(unit(1), vec![unit(1)]).build());
    assert!(matches!(e, DepTreeBuilderError::SelfDependency(u) if u == unit(1)));
}

#[test]
fn self_dependency_is_reported_among_other_units() {
    let e = expect_error(
        DepTreeBuilder::new()
            .with_dep(unit(1), vec![unit(2)])
            .with_dep(unit(2), vec![])
            .with_dep(unit(3), vec![unit(2), unit(3)])
            .with_dep(unit(4), vec![unit(1)])
            .build(),
    );
    assert!(matches!(e, DepTreeBuilderError::SelfDependency(u) if u == unit(3)));
}

#[test]
fn self_dependency_is_checked_before_the_cycle_of_the_same_unit() {
    // unit 1 lists itself and also lies on the cycle 1 -> 2 -> 1
    let e = expect_error(
        DepTreeBuilder::new()
            .with_dep(unit(1), vec![unit(2), unit(1)])
            .with_dep(unit(2), vec![unit(1)])
            .build(),
    );
    assert!(matches!(e, DepTreeBuilderError::SelfDependency(u) if u == unit(1)));
}

#[test]
fn smaller_unit_that_reaches_a_self_dependency_is_reported_first() {
    // the walk from unit 1 runs into unit 2, which lists itself
    let e = expect_error(
        DepTreeBuilder::new()
            .with_dep(unit(1), vec![unit(2)])
            .with_dep(unit(2), vec![unit(2)])
            .build(),
    );
    match e {
        DepTreeBuilderError::CircularDependency(first, last, trace) => {
            assert_eq!(first, unit(1));
            assert_eq!(last, unit(2));
            assert_eq!(trace, "(1, 0) -> (2, 0)");
        }
        other => panic!("unexpected error: {}", other.to_string()),
    }
}

#[test]
fn minimal_cycle_is_reported() {
    let a = unit(1);
    let b = unit(2);
    let e = expect_error(
        DepTreeBuilder::new()
            .with_dep(a, vec![b])
            .with_dep(b, vec![a])
            .build(),
    );
    match e {
        DepTreeBuilderError::CircularDependency(first, last, trace) => {
            assert_eq!(first, a);
            assert_eq!(last, b);
            assert_eq!(trace, "(1, 0) -> (2, 0)");
        }
        other => panic!("unexpected error: {}", other.to_string()),
    }
}

#[test]
fn cycle_below_the_first_unit_is_reported_with_the_whole_way() {
    let e = expect_error(
        DepTreeBuilder::new()
            .with_dep((1, 7), vec![(2, 0), (3, 0)])
            .with_dep((2, 0), vec![])
            .with_dep((3, 0), vec![(4, 1)])
            .with_dep((4, 1), vec![(5, 0)])
            .with_dep((5, 0), vec![(3, 0)])
            .build(),
    );
    match e {
        DepTreeBuilderError::CircularDependency(first, last, trace) => {
            assert_eq!(first, (1, 7));
            assert_eq!(last, (5, 0));
            assert_eq!(trace, "(1, 7) -> (3, 0) -> (4, 1) -> (5, 0)");
        }
        other => panic!("unexpected error: {}", other.to_string()),
    }
}

#[test]
fn units_proven_free_of_cycles_are_not_walked_again() {
    // 1 -> 3 is explored first and found clean; the cycle is 2 -> 4 -> 2
    let e = expect_error(
        DepTreeBuilder::new()
            .with_dep(unit(1), vec![unit(3)])
            .with_dep(unit(2), vec![unit(3), unit(4)])
            .with_dep(unit(3), vec![])
            .with_dep(unit(4), vec![unit(2)])
            .build(),
    );
    match e {
        DepTreeBuilderError::CircularDependency(first, last, trace) => {
            assert_eq!(first, unit(2));
            assert_eq!(last, unit(4));
            assert_eq!(trace, "(2, 0) -> (4, 0)");
        }
        other => panic!("unexpected error: {}", other.to_string()),
    }
}

#[test]
fn units_are_validated_in_ascending_order_of_both_components() {
    // (1, 2) comes before (2, 0): its self-dependency is the one reported
    let e = expect_error(
        DepTreeBuilder::new()
            .with_dep((2, 0), vec![(2, 0)])
            .with_dep((1, 2), vec![(1, 2)])
            .with_dep((1, 1), vec![])
            .build(),
    );
    assert!(matches!(e, DepTreeBuilderError::SelfDependency(u) if u == (1, 2)));
}

#[test]
fn diamond_is_no_cycle() {
    let tree = expect_tree(
        DepTreeBuilder::new()
            .with_dep(unit(1), vec![unit(2), unit(3)])
            .with_dep(unit(2), vec![unit(4)])
            .with_dep(unit(3), vec![unit(4)])
            .build(),
    );
    assert_eq!(tree.dependencies_of(unit(1)), vec![unit(2), unit(4), unit(3)]);
}

#[test]
fn self_dependency_message() {
    let e = DepTreeBuilderError::SelfDependency((12, 3));
    assert_eq!(e.to_string(), "unit `(12, 3)` depends on itself");
}

#[test]
fn circular_dependency_message() {
    let e = DepTreeBuilderError::CircularDependency(
        (1, 0),
        (20, 5),
        String::from("(1, 0) -> (20, 5)"),
    );
    assert_eq!(
        e.to_string(),
        "unit `(1, 0)` recurses when depending on `(20, 5)`, `(1, 0) -> (20, 5)`"
    );
}

#[test]
fn identifiers_are_written_in_decimal() {
    let e = DepTreeBuilderError::SelfDependency((18446744073709551615, 1000));
    assert_eq!(
        e.to_string(),
        "unit `(18446744073709551615, 1000)` depends on itself"
    );
    let zero = DepTreeBuilderError::SelfDependency((0, 0));
    assert_eq!(zero.to_string(), "unit `(0, 0)` depends on itself");
    let ten = DepTreeBuilderError::SelfDependency((10, 109));
    assert_eq!(ten.to_string(), "unit `(10, 109)` depends on itself");
}

#[test]
fn error_can_be_cloned() {
    let e = DepTreeBuilderError::CircularDependency(
        (1, 0),
        (2, 0),
        String::from("(1, 0) -> (2, 0)"),
    );
    let copy = e.clone();
    assert_eq!(copy.to_string(), e.to_string());
}

#[test]
fn cloned_builder_is_a_builder_of_its_own() {
    let mut builder = DepTreeBuilder::new();
    builder.with_dep(unit(1), vec![unit(2)]);
    let mut copy = builder.clone();
    copy.with_dep(unit(2), vec![unit(1)]);
    // the copy holds a cycle, the first builder does not
    let e = expect_error(copy.build());
    assert!(matches!(e, DepTreeBuilderError::CircularDependency(..)));
    let tree = expect_tree(builder.build());
    assert_eq!(tree.dependencies_of(unit(1)), vec![unit(2)]);
}

#[test]
fn order_of_declarations_does_not_matter() {
    let one = expect_tree(
        DepTreeBuilder::new()
            .with_dep(unit(3), vec![])
            .with_dep(unit(1), vec![unit(2), unit(3)])
            .with_dep(unit(2), vec![unit(3)])
            .build(),
    );
    let other = expect_tree(
        DepTreeBuilder::new()
            .with_dep(unit(2), vec![unit(3)])
            .with_dep(unit(3), vec![])
            .with_dep(unit(1), vec![unit(2), unit(3)])
            .build(),
    );
    assert_eq!(one.most_dependencies(), other.most_dependencies());
    assert_eq!(one.most_dependents(), other.most_dependents());
    assert_eq!(one.dependencies_of(unit(1)), other.dependencies_of(unit(1)));
}

#[test]
fn longer_cycle_without_self_dependency_is_reported() {
    let e = expect_error(
        DepTreeBuilder::new()
            .with_dep(unit(1), vec![unit(2)])
            .with_dep(unit(2), vec![unit(3)])
            .with_dep(unit(3), vec![unit(1)])
            .build(),
    );
    match e {
        DepTreeBuilderError::CircularDependency(first, last, trace) => {
            assert_eq!(first, unit(1));
            assert_eq!(last, unit(3));
            assert_eq!(trace, "(1, 0) -> (2, 0) -> (3, 0)");
        }
        other => panic!("unexpected error: {}", other.to_string()),
    }
}

#[test]
fn walk_goes_down_to_the_first_dependency_that_leads_to_a_cycle() {
    // unit 1 lists 2 (clean) before 3 and 4, which both lead back to 1
    let e = expect_error(
        DepTreeBuilder::new()
            .with_dep(unit(1), vec![unit(2), unit(3), unit(4)])
            .with_dep(unit(2), vec![unit(5)])
            .with_dep(unit(3), vec![unit(5), unit(1)])
            .with_dep(unit(4), vec![unit(1)])
            .build(),
    );
    match e {
        DepTreeBuilderError::CircularDependency(first, last, trace) => {
            assert_eq!(first, unit(1));
            assert_eq!(last, unit(3));
            assert_eq!(trace, "(1, 0) -> (3, 0)");
        }
        other => panic!("unexpected error: {}", other.to_string()),
    }
}
