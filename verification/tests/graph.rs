use conllx::graph_algo::{bfs_nodes, reachable_from};
use conllx::{sentence_to_graph, BfsWithDepth, Sentence, TokenBuilder};

/// The graph with the edges (0, 1), (0, 2), (0, 3), (1, 4), (1, 5), (5, 6),
/// (3, 7), (3, 8), added in this order.
fn graph_depth_4() -> Sentence {
    [0, 0, 0, 1, 1, 5, 3, 3]
        .iter()
        .map(|head| TokenBuilder::new("t").head(*head).head_rel("r").token())
        .collect()
}

#[test]
fn bfs_with_depth_test() {
    // Note: for directed graphs, neighbors are returned in reverse order
    // of addition.
    let expected = vec![
        (0, 0),
        (3, 1),
        (2, 1),
        (1, 1),
        (8, 2),
        (7, 2),
        (5, 2),
        (4, 2),
        (6, 3),
    ];
    let graph = sentence_to_graph(&graph_depth_4()).unwrap();
    let mut walk = BfsWithDepth::new(&graph, 0);
    let mut visits = Vec::new();
    while let Some(visit) = walk.next(&graph) {
        visits.push(visit);
    }
    assert_eq!(expected, visits);
}

#[test]
fn bfs_passes_an_excluded_node_by() {
    let graph = sentence_to_graph(&graph_depth_4()).unwrap();
    let mut walk = BfsWithDepth::new(&graph, 0);
    walk.exclude(1);
    let mut visits = Vec::new();
    while let Some(visit) = walk.next(&graph) {
        visits.push(visit);
    }
    assert_eq!(vec![(0, 0), (3, 1), (2, 1), (8, 2), (7, 2)], visits);
}

#[test]
fn bfs_nodes_are_in_breadth_first_order() {
    let graph = sentence_to_graph(&graph_depth_4()).unwrap();
    assert_eq!(bfs_nodes(&graph, 0), vec![0, 3, 2, 1, 8, 7, 5, 4, 6]);
    assert_eq!(bfs_nodes(&graph, 1), vec![1, 5, 4, 6]);
    assert_eq!(bfs_nodes(&graph, 2), vec![2]);
}

#[test]
fn reachable_nodes_are_those_below() {
    let graph = sentence_to_graph(&graph_depth_4()).unwrap();
    assert_eq!(
        reachable_from(&graph, 1),
        vec![false, true, false, false, true, true, true, false, false]
    );
    assert_eq!(reachable_from(&graph, 0), vec![true; 9]);
}
