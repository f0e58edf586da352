use greedy_dag::extractor::{CostSet, GreedyDagExtractor};
use greedy_dag::graph::{Graph, Node};
use greedy_dag::result::ExtractionResult;

fn node(class: usize, cost: u64, children: &[usize]) -> Node {
    Node { class, cost, children: children.to_vec() }
}

fn graph(nodes: Vec<Node>, num_classes: usize) -> Graph {
    Graph::new(nodes, num_classes).expect("the nodes form a graph")
}

fn extract(graph: &Graph) -> ExtractionResult {
    GreedyDagExtractor.extract(graph, &[])
}

fn chosen(result: &ExtractionResult, num_classes: usize) -> Vec<Option<usize>> {
    (0..num_classes).map(|class| result.get(class)).collect()
}

fn total_of(graph: &Graph, class: usize) -> Option<u128> {
    GreedyDagExtractor.cost_sets(graph).get(&class).map(|best: &CostSet| best.total)
}

fn costs_of(graph: &Graph, class: usize) -> Vec<(usize, u64)> {
    let store = GreedyDagExtractor.cost_sets(graph);
    let mut costs: Vec<(usize, u64)> =
        store[&class].costs.iter().map(|(class, cost)| (*class, *cost)).collect();
    costs.sort();
    costs
}

/// Follows the chosen nodes from `class` along every child and reports
/// whether some path comes back to a class that is already on it.
fn revisits(graph: &Graph, result: &ExtractionResult, class: usize, path: &mut Vec<usize>) -> bool {
    if path.contains(&class) {
        return true;
    }
    let Some(chosen) = result.get(class) else {
        return false;
    };
    path.push(class);
    for child in &graph.node(chosen).children {
        if revisits(graph, result, graph.node(*child).class, path) {
            return true;
        }
    }
    path.pop();
    false
}

/// Whether the best of every class holds all the classes that the bests of
/// the children of its chosen node hold, none of which holds the class.
fn rests_on_children(graph: &Graph) -> bool {
    let store = GreedyDagExtractor.cost_sets(graph);
    store.iter().all(|(class, best)| {
        graph.node(best.choice).children.iter().all(|child| {
            let below = &store[&graph.node(*child).class];
            !below.costs.contains_key(class)
                && below.costs.keys().all(|key| best.costs.contains_key(key))
        })
    })
}

fn has_cycle(graph: &Graph, result: &ExtractionResult) -> bool {
    (0..graph.num_classes()).any(|class| revisits(graph, result, class, &mut Vec::new()))
}

// Classes: X = 0, Y = 1. Nodes: n1 = 0, n2 = 1, n3 = 2.
fn two_classes_with_a_cycle() -> Graph {
    graph(vec![node(0, 1, &[]), node(0, 5, &[2]), node(1, 1, &[0])], 2)
}

#[test]
fn cheap_leaf_beats_node_that_would_close_a_cycle() {
    let g = two_classes_with_a_cycle();
    let result = extract(&g);
    assert_eq!(result.get(0), Some(0));
    assert_eq!(result.get(1), Some(2));
    assert_eq!(total_of(&g, 0), Some(1));
    assert_eq!(total_of(&g, 1), Some(2));
    assert_eq!(costs_of(&g, 0), vec![(0, 1)]);
    assert_eq!(costs_of(&g, 1), vec![(0, 1), (1, 1)]);
}

// Classes: P = 0, S = 1. The node of P has two children, both of class S.
#[test]
fn class_shared_by_two_children_is_counted_once() {
    let g = graph(vec![node(0, 1, &[1, 1]), node(1, 2, &[])], 2);
    let result = extract(&g);
    assert_eq!(result.get(0), Some(0));
    assert_eq!(result.get(1), Some(1));
    assert_eq!(total_of(&g, 0), Some(3));
    assert_eq!(total_of(&g, 1), Some(2));
    assert_eq!(costs_of(&g, 0), vec![(0, 1), (1, 2)]);
}

#[test]
fn class_shared_through_different_children_is_counted_once() {
    // Classes: top = 0, left = 1, right = 2, shared = 3.
    let g = graph(
        vec![node(3, 7, &[]), node(1, 1, &[0]), node(2, 2, &[0]), node(0, 4, &[1, 2])],
        4,
    );
    assert_eq!(total_of(&g, 1), Some(8));
    assert_eq!(total_of(&g, 2), Some(9));
    assert_eq!(total_of(&g, 0), Some(14));
    assert_eq!(costs_of(&g, 0), vec![(0, 4), (1, 1), (2, 2), (3, 7)]);
}

#[test]
fn classes_that_only_reach_each_other_are_absent() {
    // Classes 0 and 1 need each other; class 2 needs itself; class 3 is a leaf.
    let g = graph(
        vec![node(0, 1, &[1]), node(1, 1, &[0]), node(2, 1, &[2]), node(3, 1, &[])],
        4,
    );
    let result = extract(&g);
    assert_eq!(chosen(&result, 4), vec![None, None, None, Some(3)]);
    assert_eq!(total_of(&g, 0), None);
    assert_eq!(total_of(&g, 2), None);
}

#[test]
fn class_whose_every_alternative_cycles_back_is_absent() {
    // Class 0 has two nodes; one needs class 1, the other class 2, and both
    // of those need class 0 again.
    let g = graph(
        vec![node(0, 1, &[2]), node(0, 1, &[3]), node(1, 1, &[0]), node(2, 1, &[1])],
        3,
    );
    let result = extract(&g);
    assert_eq!(chosen(&result, 3), vec![None, None, None]);
}

// Classes: U = 0, D = 1, E = 2. D needs U; E needs U through its first node
// and nothing through its second.
fn graph_over_u(u: Node) -> Graph {
    graph(vec![u, node(1, 1, &[0]), node(2, 1, &[0]), node(2, 10, &[])], 3)
}

#[test]
fn unextractable_class_takes_dependents_out_of_the_result() {
    let open = graph_over_u(node(0, 1, &[]));
    let result = extract(&open);
    assert_eq!(chosen(&result, 3), vec![Some(0), Some(1), Some(2)]);
    assert_eq!(total_of(&open, 2), Some(2));

    // The only node of U now needs U itself: U cannot be extracted.
    let barred = graph_over_u(node(0, 1, &[0]));
    let result = extract(&barred);
    assert_eq!(chosen(&result, 3), vec![None, None, Some(3)]);
    assert_eq!(total_of(&barred, 2), Some(10));
}

#[test]
fn class_without_nodes_is_absent() {
    let g = graph(vec![node(0, 1, &[]), node(2, 1, &[0])], 3);
    let result = extract(&g);
    assert_eq!(chosen(&result, 3), vec![Some(0), None, Some(1)]);
    assert_eq!(total_of(&g, 1), None);
}

#[test]
fn empty_graph_gives_empty_result() {
    let g = graph(Vec::new(), 0);
    let result = extract(&g);
    assert_eq!(result.get(0), None);
    assert!(GreedyDagExtractor.cost_sets(&g).is_empty());

    let g = graph(Vec::new(), 3);
    assert_eq!(chosen(&extract(&g), 3), vec![None, None, None]);
}

#[test]
fn chain_listed_root_first_needs_one_round_per_class() {
    let g = graph(
        vec![node(0, 1, &[1]), node(1, 1, &[2]), node(2, 1, &[3]), node(3, 1, &[4]), node(4, 1, &[])],
        5,
    );
    let result = extract(&g);
    assert_eq!(chosen(&result, 5), vec![Some(0), Some(1), Some(2), Some(3), Some(4)]);
    for class in 0..5 {
        assert_eq!(total_of(&g, class), Some(5 - class as u128));
    }
    assert_eq!(costs_of(&g, 2), vec![(2, 1), (3, 1), (4, 1)]);
}

#[test]
fn strictly_cheaper_node_replaces_the_choice() {
    let g = graph(vec![node(0, 5, &[]), node(0, 3, &[])], 1);
    assert_eq!(extract(&g).get(0), Some(1));
    assert_eq!(total_of(&g, 0), Some(3));
}

#[test]
fn equal_total_keeps_the_earlier_choice() {
    let g = graph(vec![node(0, 3, &[]), node(0, 3, &[]), node(0, 4, &[])], 1);
    assert_eq!(extract(&g).get(0), Some(0));
    assert_eq!(total_of(&g, 0), Some(3));
}

#[test]
fn best_set_early_in_a_round_is_seen_later_in_the_round() {
    // The leaf comes first, so its class is resolved when the second node
    // is visited, and one round resolves both.
    let g = graph(vec![node(1, 2, &[]), node(0, 1, &[0])], 2);
    assert_eq!(chosen(&extract(&g), 2), vec![Some(1), Some(0)]);
    assert_eq!(total_of(&g, 0), Some(3));
}

#[test]
fn improvement_of_a_child_reaches_its_parent_in_a_later_round() {
    // Classes: A = 0, B = 1, C = 2, P = 3. B is resolved over the dear node
    // of A before the cheap one is seen.
    let g = graph(
        vec![
            node(0, 10, &[]),
            node(1, 1, &[0]),
            node(0, 1, &[]),
            node(2, 1, &[2]),
            node(3, 1, &[1, 3]),
        ],
        4,
    );
    let result = extract(&g);
    assert_eq!(chosen(&result, 4), vec![Some(2), Some(1), Some(3), Some(4)]);
    assert_eq!(total_of(&g, 0), Some(1));
    assert_eq!(total_of(&g, 1), Some(2));
    assert_eq!(total_of(&g, 2), Some(2));
    assert_eq!(total_of(&g, 3), Some(4));
}

#[test]
fn entry_merged_first_is_kept_when_children_disagree() {
    // Class 2 has no node. Class 0 ends at its node 2, with the costs that
    // the merge in order of the children gives.
    let g = graph(
        vec![
            node(3, 1, &[]),
            node(1, 1, &[0, 5]),
            node(0, 1, &[5]),
            node(1, 1, &[0, 2]),
            node(3, 0, &[2, 5]),
            node(3, 0, &[]),
            node(0, 0, &[3, 4]),
        ],
        4,
    );
    let result = extract(&g);
    assert_eq!(chosen(&result, 4), vec![Some(2), Some(1), None, Some(5)]);
    assert_eq!(costs_of(&g, 0), vec![(0, 1), (3, 0)]);
    assert_eq!(costs_of(&g, 1), vec![(1, 1), (3, 0)]);
    assert_eq!(total_of(&g, 0), Some(1));
    assert_eq!(total_of(&g, 1), Some(1));
    assert_eq!(total_of(&g, 3), Some(0));
}

#[test]
fn two_runs_give_the_same_result() {
    let g = graph(
        vec![
            node(3, 1, &[]),
            node(1, 1, &[0, 5]),
            node(0, 1, &[5]),
            node(1, 1, &[0, 2]),
            node(3, 0, &[2, 5]),
            node(3, 0, &[]),
            node(0, 0, &[3, 4]),
        ],
        4,
    );
    let first = extract(&g);
    let second = extract(&g);
    assert_eq!(chosen(&first, 4), chosen(&second, 4));
    for class in 0..4 {
        assert_eq!(total_of(&g, class), total_of(&g, class));
    }
}

#[test]
fn roots_do_not_restrict_the_result() {
    let g = two_classes_with_a_cycle();
    let all = GreedyDagExtractor.extract(&g, &[]);
    let one = GreedyDagExtractor.extract(&g, &[1]);
    let unknown = GreedyDagExtractor.extract(&g, &[7, 0]);
    assert_eq!(chosen(&all, 2), chosen(&one, 2));
    assert_eq!(chosen(&all, 2), chosen(&unknown, 2));
}

#[test]
fn total_is_never_above_the_cheapest_leaf_of_the_class() {
    let g = graph(
        vec![node(0, 9, &[]), node(0, 4, &[2]), node(1, 2, &[]), node(0, 7, &[]), node(1, 1, &[])],
        2,
    );
    assert_eq!(total_of(&g, 1), Some(1));
    // 4 + 2 when node 1 is first taken, 4 + 1 once class 1 has improved
    assert_eq!(total_of(&g, 0), Some(5));
    assert_eq!(extract(&g).get(0), Some(1));
}

#[test]
fn walks_along_chosen_nodes_do_not_return() {
    let g = two_classes_with_a_cycle();
    assert!(!has_cycle(&g, &extract(&g)));
    let g = graph(
        vec![node(3, 7, &[]), node(1, 1, &[0]), node(2, 2, &[0]), node(0, 4, &[1, 2])],
        4,
    );
    assert!(!has_cycle(&g, &extract(&g)));
    let g = graph_over_u(node(0, 1, &[]));
    assert!(!has_cycle(&g, &extract(&g)));
}

#[test]
fn bests_that_rest_on_their_children_leave_no_cycle() {
    let graphs = vec![
        two_classes_with_a_cycle(),
        graph_over_u(node(0, 1, &[])),
        graph(
            vec![node(3, 7, &[]), node(1, 1, &[0]), node(2, 2, &[0]), node(0, 4, &[1, 2])],
            4,
        ),
        graph(
            vec![
                node(0, 10, &[]),
                node(1, 1, &[0]),
                node(0, 1, &[]),
                node(2, 1, &[2]),
                node(3, 1, &[1, 3]),
            ],
            4,
        ),
    ];
    for g in &graphs {
        assert!(rests_on_children(g));
        assert!(!has_cycle(g, &extract(g)));
    }
}

#[test]
fn children_of_chosen_nodes_are_resolved_and_of_other_classes() {
    let g = graph(
        vec![
            node(0, 10, &[]),
            node(1, 1, &[0]),
            node(0, 1, &[]),
            node(2, 1, &[2]),
            node(3, 1, &[1, 3]),
        ],
        4,
    );
    let result = extract(&g);
    for class in 0..4 {
        let chosen = result.get(class).unwrap();
        assert_eq!(g.node(chosen).class, class);
        for child in &g.node(chosen).children {
            let child_class = g.node(*child).class;
            assert_ne!(child_class, class);
            assert!(result.get(child_class).is_some());
        }
    }
}

#[test]
fn stale_costs_can_leave_a_cycle() {
    // Class 3 is resolved over an early, dear best of class 2 and ends
    // cheaper than the best that class 2 later gets over class 1, which in
    // turn rests on the first best of class 3: 1 needs 3, 3 needs 2, and 2
    // needs 1.
    let g = graph(
        vec![
            node(0, 10, &[]),
            node(4, 6, &[]),
            node(2, 1, &[2]),
            node(3, 13, &[]),
            node(1, 1, &[1, 0]),
            node(2, 1, &[4]),
            node(0, 3, &[9]),
            node(1, 1, &[3]),
            node(3, 1, &[0, 2]),
            node(4, 5, &[]),
            node(0, 8, &[]),
        ],
        5,
    );
    let result = extract(&g);
    assert_eq!(chosen(&result, 5), vec![Some(10), Some(7), Some(5), Some(8), Some(9)]);
    assert_eq!(total_of(&g, 0), Some(8));
    assert_eq!(total_of(&g, 1), Some(14));
    assert_eq!(total_of(&g, 2), Some(15));
    assert_eq!(total_of(&g, 3), Some(12));
    assert_eq!(total_of(&g, 4), Some(5));
    assert_eq!(costs_of(&g, 3), vec![(0, 3), (1, 1), (2, 1), (3, 1), (4, 6)]);
    assert!(has_cycle(&g, &result));
    assert!(!rests_on_children(&g));
}

#[test]
fn stale_costs_without_weight_can_leave_a_cycle() {
    // All totals end at zero, so no later round can tell the bests apart:
    // classes 1, 3 and 2 are left choosing nodes that need one another.
    let g = graph(
        vec![
            node(3, 0, &[1, 5]),
            node(0, 1, &[]),
            node(1, 0, &[1]),
            node(3, 0, &[1]),
            node(0, 0, &[]),
            node(2, 0, &[2]),
            node(1, 0, &[4, 7]),
            node(3, 1, &[]),
        ],
        4,
    );
    let result = extract(&g);
    assert_eq!(chosen(&result, 4), vec![Some(4), Some(6), Some(5), Some(0)]);
    for class in 0..4 {
        assert_eq!(total_of(&g, class), Some(0));
    }
    assert!(has_cycle(&g, &result));
    assert!(!rests_on_children(&g));
}

#[test]
fn largest_costs_do_not_overflow_the_total() {
    let g = graph(vec![node(1, u64::MAX, &[]), node(2, u64::MAX, &[]), node(0, u64::MAX, &[0, 1])], 3);
    assert_eq!(total_of(&g, 0), Some(3 * (u64::MAX as u128)));
}

#[test]
fn result_records_and_replaces_choices() {
    let mut result = ExtractionResult::new();
    assert_eq!(result.get(4), None);
    result.choose_node(4, 10);
    result.choose_node(2, 11);
    assert_eq!(result.get(4), Some(10));
    assert_eq!(result.get(2), Some(11));
    assert_eq!(result.get(3), None);
    result.choose_node(4, 12);
    assert_eq!(result.get(4), Some(12));
    assert_eq!(result.get(2), Some(11));
    result.choose_node(4, 12);
    assert_eq!(result.get(4), Some(12));
}
