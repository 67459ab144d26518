use dep_tree::{DepId, DepTree, DepTreeBuilder};
use std::collections::BTreeMap;
use std::rc::Rc;

fn unit(n: u64) -> DepId {
    (n, 0)
}

fn tree_of(edges: Vec<(DepId, Vec<DepId>)>) -> DepTree {
    let mut map: BTreeMap<DepId, Vec<DepId>> = BTreeMap::new();
    for (key, deps) in edges {
        map.insert(key, deps);
    }
    DepTree::new(Rc::new(map))
}

fn example() -> DepTree {
    tree_of(vec![
        (unit(1), vec![unit(2), unit(3)]),
        (unit(2), vec![unit(3)]),
        (unit(3), vec![]),
    ])
}

#[test]
fn example_dependencies() {
    let tree = example();
    assert_eq!(tree.dependencies_of(unit(1)), vec![unit(2), unit(3)]);
    assert_eq!(tree.dependencies_of(unit(2)), vec![unit(3)]);
    assert!(tree.dependencies_of(unit(3)).is_empty());
}

#[test]
fn example_dependents() {
    let tree = example();
    assert_eq!(tree.dependents_of(unit(3)), vec![unit(1), unit(2)]);
    assert_eq!(tree.dependents_of(unit(2)), vec![unit(1)]);
    assert!(tree.dependents_of(unit(1)).is_empty());
}

#[test]
fn example_dependency_counts() {
    let tree = example();
    assert_eq!(
        tree.most_dependencies(),
        vec![(unit(1), 3), (unit(2), 1), (unit(3), 0)]
    );
    assert_eq!(
        tree.least_dependencies(),
        vec![(unit(3), 0), (unit(2), 1), (unit(1), 3)]
    );
}

#[test]
fn example_in_degrees() {
    let tree = example();
    assert_eq!(
        tree.most_dependents(),
        vec![(unit(3), 2), (unit(2), 1), (unit(1), 0)]
    );
    assert_eq!(
        tree.least_dependents(),
        vec![(unit(1), 0), (unit(2), 1), (unit(3), 2)]
    );
}

#[test]
fn dependents_are_direct_only() {
    // chain 1 -> 2 -> 3
    let tree = tree_of(vec![
        (unit(1), vec![unit(2)]),
        (unit(2), vec![unit(3)]),
        (unit(3), vec![]),
    ]);
    assert_eq!(tree.dependents_of(unit(3)), vec![unit(2)]);
    assert_eq!(tree.dependencies_of(unit(1)), vec![unit(2), unit(3)]);
}

#[test]
fn unknown_unit_has_no_dependencies_and_no_dependents() {
    let tree = example();
    assert!(tree.dependencies_of(unit(42)).is_empty());
    assert!(tree.dependents_of(unit(42)).is_empty());
}

#[test]
fn dependencies_appear_once_whatever_the_number_of_chains() {
    // 4 is reached over 2 and over 3, 5 over three chains
    let tree = tree_of(vec![
        (unit(1), vec![unit(2), unit(3), unit(5)]),
        (unit(2), vec![unit(4)]),
        (unit(3), vec![unit(4)]),
        (unit(4), vec![unit(5)]),
    ]);
    assert_eq!(
        tree.dependencies_of(unit(1)),
        vec![unit(2), unit(4), unit(5), unit(3)]
    );
}

#[test]
fn dependencies_come_in_depth_first_order() {
    let tree = tree_of(vec![
        (unit(1), vec![unit(5), unit(2)]),
        (unit(5), vec![unit(7), unit(6)]),
        (unit(2), vec![unit(6), unit(3)]),
    ]);
    assert_eq!(
        tree.dependencies_of(unit(1)),
        vec![unit(5), unit(7), unit(6), unit(2), unit(3)]
    );
}

#[test]
fn repeated_entry_of_a_list_is_one_dependency() {
    let tree = tree_of(vec![(unit(1), vec![unit(2), unit(2)]), (unit(2), vec![])]);
    assert_eq!(tree.dependencies_of(unit(1)), vec![unit(2)]);
}

#[test]
fn dependency_count_follows_each_edge_of_each_unit_once() {
    // diamond: the walk from 1 follows 1->2, 2->4, 1->3, 3->4
    let tree = tree_of(vec![
        (unit(1), vec![unit(2), unit(3)]),
        (unit(2), vec![unit(4)]),
        (unit(3), vec![unit(4)]),
        (unit(4), vec![]),
    ]);
    assert_eq!(
        tree.most_dependencies(),
        vec![(unit(1), 4), (unit(2), 1), (unit(3), 1), (unit(4), 0)]
    );
    assert_eq!(
        tree.least_dependencies(),
        vec![(unit(4), 0), (unit(2), 1), (unit(3), 1), (unit(1), 4)]
    );
}

#[test]
fn dependency_count_counts_a_repeated_edge_each_time() {
    let tree = tree_of(vec![
        (unit(1), vec![unit(2), unit(2)]),
        (unit(2), vec![unit(3)]),
    ]);
    // 1->2 twice and 2->3 once
    assert_eq!(tree.most_dependencies(), vec![(unit(1), 3), (unit(2), 1)]);
}

#[test]
fn each_unit_is_counted_by_a_walk_of_its_own() {
    // both 1 and 2 reach 3 and its edge to 4
    let tree = tree_of(vec![
        (unit(1), vec![unit(3)]),
        (unit(2), vec![unit(3)]),
        (unit(3), vec![unit(4)]),
    ]);
    assert_eq!(
        tree.most_dependencies(),
        vec![(unit(1), 2), (unit(2), 2), (unit(3), 1)]
    );
}

#[test]
fn dependency_ranking_holds_declared_units_only() {
    let tree = tree_of(vec![(unit(1), vec![unit(2), unit(3)])]);
    assert_eq!(tree.most_dependencies(), vec![(unit(1), 2)]);
    assert_eq!(tree.least_dependencies(), vec![(unit(1), 2)]);
}

#[test]
fn in_degree_counts_distinct_units() {
    let tree = tree_of(vec![
        (unit(1), vec![unit(3), unit(3)]),
        (unit(2), vec![unit(3)]),
    ]);
    assert_eq!(
        tree.most_dependents(),
        vec![(unit(3), 2), (unit(1), 0), (unit(2), 0)]
    );
    assert_eq!(tree.dependents_of(unit(3)), vec![unit(1), unit(2)]);
}

#[test]
fn dependents_rankings_hold_every_unit_once() {
    let tree = tree_of(vec![
        (unit(1), vec![unit(2), unit(3)]),
        (unit(2), vec![unit(3)]),
        (unit(3), vec![]),
        (unit(4), vec![]),
        (unit(5), vec![unit(9)]),
    ]);
    let most = tree.most_dependents();
    let least = tree.least_dependents();
    for ranking in [&most, &least] {
        let mut units: Vec<DepId> = ranking.iter().map(|entry| entry.0).collect();
        units.sort();
        assert_eq!(
            units,
            vec![unit(1), unit(2), unit(3), unit(4), unit(5), unit(9)]
        );
    }
    assert_eq!(
        most,
        vec![
            (unit(3), 2),
            (unit(2), 1),
            (unit(9), 1),
            (unit(1), 0),
            (unit(4), 0),
            (unit(5), 0)
        ]
    );
    assert_eq!(
        least,
        vec![
            (unit(1), 0),
            (unit(4), 0),
            (unit(5), 0),
            (unit(2), 1),
            (unit(9), 1),
            (unit(3), 2)
        ]
    );
}

#[test]
fn equal_counts_keep_ascending_order() {
    let tree = tree_of(vec![
        ((2, 1), vec![(9, 9)]),
        ((1, 5), vec![(9, 9)]),
        ((2, 0), vec![(9, 9)]),
        ((1, 0), vec![]),
    ]);
    assert_eq!(
        tree.most_dependencies(),
        vec![((1, 5), 1), ((2, 0), 1), ((2, 1), 1), ((1, 0), 0)]
    );
    assert_eq!(
        tree.least_dependencies(),
        vec![((1, 0), 0), ((1, 5), 1), ((2, 0), 1), ((2, 1), 1)]
    );
    assert_eq!(tree.dependents_of((9, 9)), vec![(1, 5), (2, 0), (2, 1)]);
}

#[test]
fn queries_give_the_same_answer_twice() {
    let tree = example();
    assert_eq!(tree.dependencies_of(unit(1)), tree.dependencies_of(unit(1)));
    assert_eq!(tree.dependents_of(unit(3)), tree.dependents_of(unit(3)));
    assert_eq!(tree.most_dependencies(), tree.most_dependencies());
    assert_eq!(tree.least_dependencies(), tree.least_dependencies());
    assert_eq!(tree.most_dependents(), tree.most_dependents());
    assert_eq!(tree.least_dependents(), tree.least_dependents());
}

#[test]
fn cloned_graph_answers_alike() {
    let tree = example();
    let copy = tree.clone();
    assert_eq!(copy.most_dependencies(), tree.most_dependencies());
    assert_eq!(copy.dependents_of(unit(3)), tree.dependents_of(unit(3)));
}

#[test]
fn built_graph_answers_like_the_wrapped_map() {
    let built = DepTreeBuilder::new()
        .with_dep(unit(1), vec![unit(2), unit(3)])
        .with_dep(unit(2), vec![unit(3)])
        .with_dep(unit(3), vec![])
        .build();
    let built = match built {
        Ok(tree) => tree,
        Err(e) => panic!("edges were refused: {}", e.to_string()),
    };
    let wrapped = example();
    assert_eq!(built.most_dependencies(), wrapped.most_dependencies());
    assert_eq!(built.most_dependents(), wrapped.most_dependents());
    assert_eq!(built.dependencies_of(unit(1)), wrapped.dependencies_of(unit(1)));
}

#[test]
fn walks_end_on_a_map_with_a_cycle() {
    // a map that was never validated
    let tree = tree_of(vec![(unit(1), vec![unit(2)]), (unit(2), vec![unit(1)])]);
    assert_eq!(tree.dependencies_of(unit(1)), vec![unit(2), unit(1)]);
    assert_eq!(tree.most_dependencies(), vec![(unit(1), 2), (unit(2), 2)]);
    assert_eq!(tree.most_dependents(), vec![(unit(1), 1), (unit(2), 1)]);
}

#[test]
fn default_graph_is_empty() {
    let tree = DepTree::default();
    assert!(tree.most_dependencies().is_empty());
    assert!(tree.least_dependents().is_empty());
    assert!(tree.dependencies_of(unit(1)).is_empty());
}

#[test]
fn in_degree_is_the_number_of_dependents() {
    let tree = tree_of(vec![
        (unit(1), vec![unit(4), unit(2)]),
        (unit(2), vec![unit(4), unit(4)]),
        (unit(3), vec![unit(4)]),
        (unit(4), vec![]),
    ]);
    for (id, count) in tree.most_dependents() {
        assert_eq!(tree.dependents_of(id).len(), count);
    }
    assert_eq!(
        tree.most_dependents(),
        vec![(unit(4), 3), (unit(2), 1), (unit(1), 0), (unit(3), 0)]
    );
}

#[test]
fn declared_edges_of_a_small_graph_can_be_counted() {
    assert!(example().counts_fit());
    assert!(DepTree::default().counts_fit());
    let tree = tree_of(vec![
        (unit(1), vec![unit(2), unit(2), unit(3)]),
        (unit(2), vec![unit(3)]),
    ]);
    assert!(tree.counts_fit());
    assert_eq!(tree.most_dependencies(), vec![(unit(1), 4), (unit(2), 1)]);
}
