use graph_walk::graph::Graph;
use graph_walk::graph::GraphAdjacencyMatrix;
use graph_walk::graph::NodesIterator;
use std::collections::HashSet;

fn sample() -> GraphAdjacencyMatrix<i32> {
    GraphAdjacencyMatrix::new(vec![(0, vec![1, 2]), (2, vec![1, 3]), (1, vec![4])])
}

fn ring(size: u32) -> GraphAdjacencyMatrix<u32> {
    let mut entries = Vec::new();
    for node in 0..size {
        entries.push((node, vec![(node + 1) % size]));
    }
    GraphAdjacencyMatrix::new(entries)
}

#[test]
fn depth_first_visits_last_listed_neighbour_first() {
    let graph = sample();
    let order: Vec<i32> = graph.depth_first(0).collect();
    assert_eq!(order, vec![0, 2, 3, 1, 4]);
}

#[test]
fn breadth_first_visits_siblings_before_grandchildren() {
    let graph = sample();
    let order: Vec<i32> = graph.breadth_first(0).collect();
    assert_eq!(order, vec![0, 1, 2, 4, 3]);
}

#[test]
fn traversal_from_inner_node_sees_only_what_it_reaches() {
    let graph = sample();
    let depth: Vec<i32> = graph.depth_first(2).collect();
    assert_eq!(depth, vec![2, 3, 1, 4]);
    let breadth: Vec<i32> = graph.breadth_first(2).collect();
    assert_eq!(breadth, vec![2, 1, 3, 4]);
}

#[test]
fn root_without_entry_is_yielded_alone() {
    let graph = sample();
    let depth: Vec<i32> = graph.depth_first(7).collect();
    assert_eq!(depth, vec![7]);
    let breadth: Vec<i32> = graph.breadth_first(7).collect();
    assert_eq!(breadth, vec![7]);
}

#[test]
fn root_of_empty_graph_is_yielded_alone() {
    let graph: GraphAdjacencyMatrix<u8> = GraphAdjacencyMatrix::new(Vec::new());
    let order: Vec<u8> = graph.depth_first(3).collect();
    assert_eq!(order, vec![3]);
}

#[test]
fn root_with_empty_list_is_yielded_alone() {
    let graph = GraphAdjacencyMatrix::new(vec![(1u64, Vec::new()), (2, vec![1])]);
    let order: Vec<u64> = graph.breadth_first(1).collect();
    assert_eq!(order, vec![1]);
}

#[test]
fn root_comes_first_in_both_orders() {
    let graph = sample();
    for root in [0, 1, 2, 3, 4, 9] {
        assert_eq!(graph.depth_first(root).next(), Some(root));
        assert_eq!(graph.breadth_first(root).next(), Some(root));
    }
}

#[test]
fn no_node_is_yielded_twice() {
    let graph = GraphAdjacencyMatrix::new(
        vec![(0, vec![1, 2, 1, 3]), (1, vec![3, 3, 0]), (2, vec![3, 1]), (3, vec![0, 3])],
    );
    for root in [0, 1, 2, 3] {
        let depth: Vec<i32> = graph.depth_first(root).collect();
        let breadth: Vec<i32> = graph.breadth_first(root).collect();
        let depth_set: HashSet<i32> = depth.iter().copied().collect();
        let breadth_set: HashSet<i32> = breadth.iter().copied().collect();
        assert_eq!(depth.len(), depth_set.len());
        assert_eq!(breadth.len(), breadth_set.len());
    }
}

#[test]
fn repeated_neighbour_is_yielded_once() {
    let graph = GraphAdjacencyMatrix::new(vec![(0, vec![1, 1, 2, 1])]);
    let depth: Vec<i32> = graph.depth_first(0).collect();
    assert_eq!(depth, vec![0, 1, 2]);
    let breadth: Vec<i32> = graph.breadth_first(0).collect();
    assert_eq!(breadth, vec![0, 1, 2]);
}

#[test]
fn two_node_cycle_ends_after_both_nodes() {
    let graph = GraphAdjacencyMatrix::new(vec![('a', vec!['b']), ('b', vec!['a'])]);
    let depth: Vec<char> = graph.depth_first('a').collect();
    assert_eq!(depth, vec!['a', 'b']);
    let breadth: Vec<char> = graph.breadth_first('b').collect();
    assert_eq!(breadth, vec!['b', 'a']);
}

#[test]
fn self_loop_ends_after_one_node() {
    let graph = GraphAdjacencyMatrix::new(vec![(5u8, vec![5, 5])]);
    let order: Vec<u8> = graph.depth_first(5).collect();
    assert_eq!(order, vec![5]);
}

#[test]
fn cyclic_graph_yields_exactly_what_the_root_reaches() {
    let graph = GraphAdjacencyMatrix::new(
        vec![(0, vec![1]), (1, vec![2, 0]), (2, vec![0, 5]), (3, vec![0, 4]), (4, vec![3])],
    );
    let expected: HashSet<i32> = [0, 1, 2, 5].into_iter().collect();
    let depth: Vec<i32> = graph.depth_first(0).collect();
    let breadth: Vec<i32> = graph.breadth_first(0).collect();
    assert_eq!(depth, vec![0, 1, 2, 5]);
    assert_eq!(breadth, vec![0, 1, 2, 5]);
    assert_eq!(depth.iter().copied().collect::<HashSet<i32>>(), expected);
    assert_eq!(breadth.iter().copied().collect::<HashSet<i32>>(), expected);
    let from_three: HashSet<i32> = graph.breadth_first(3).collect();
    assert_eq!(from_three, [0, 1, 2, 3, 4, 5].into_iter().collect::<HashSet<i32>>());
}

#[test]
fn orders_differ_where_depth_matters() {
    let graph = GraphAdjacencyMatrix::new(
        vec![(1, vec![2, 3]), (2, vec![4, 5]), (3, vec![6, 7]), (4, vec![8])],
    );
    let depth: Vec<i32> = graph.depth_first(1).collect();
    assert_eq!(depth, vec![1, 3, 7, 6, 2, 5, 4, 8]);
    let breadth: Vec<i32> = graph.breadth_first(1).collect();
    assert_eq!(breadth, vec![1, 2, 3, 4, 5, 6, 7, 8]);
}

#[test]
fn pulling_a_few_nodes_of_a_long_cycle_returns_at_once() {
    let graph = ring(100_000);
    let mut depth = graph.depth_first(0);
    assert_eq!(depth.next(), Some(0));
    assert_eq!(depth.next(), Some(1));
    assert_eq!(depth.next(), Some(2));
    let breadth: Vec<u32> = graph.breadth_first(99_998).take(4).collect();
    assert_eq!(breadth, vec![99_998, 99_999, 0, 1]);
}

#[test]
fn long_cycle_ends_after_one_round() {
    let graph = ring(1000);
    let order: Vec<u32> = graph.depth_first(10).collect();
    assert_eq!(order.len(), 1000);
    assert_eq!(order[0], 10);
    assert_eq!(order[999], 9);
}

#[test]
fn exhausted_traversal_stays_exhausted() {
    let graph = sample();
    let mut it = graph.depth_first(4);
    assert_eq!(it.next(), Some(4));
    assert_eq!(it.next(), None);
    assert_eq!(it.next(), None);
}

#[test]
fn each_call_starts_a_new_traversal() {
    let graph = sample();
    let first: Vec<i32> = graph.depth_first(0).collect();
    let second: Vec<i32> = graph.depth_first(0).collect();
    assert_eq!(first, second);
}

#[test]
fn two_traversals_of_one_graph_do_not_disturb_each_other() {
    let graph = sample();
    let mut depth = graph.depth_first(0);
    let mut breadth = graph.breadth_first(0);
    assert_eq!(depth.next(), Some(0));
    assert_eq!(breadth.next(), Some(0));
    assert_eq!(depth.next(), Some(2));
    assert_eq!(breadth.next(), Some(1));
    assert_eq!(depth.next(), Some(3));
    assert_eq!(breadth.next(), Some(2));
}

#[test]
fn neighbours_gives_the_list_in_its_order() {
    let graph = sample();
    assert_eq!(graph.neighbours(&0), Some(&vec![1, 2]));
    assert_eq!(graph.neighbours(&2), Some(&vec![1, 3]));
    assert_eq!(graph.neighbours(&1), Some(&vec![4]));
}

#[test]
fn neighbours_of_node_without_entry_is_none() {
    let graph = sample();
    assert_eq!(graph.neighbours(&3), None);
    assert_eq!(graph.neighbours(&4), None);
    assert_eq!(graph.neighbours(&-1), None);
}

#[test]
fn later_entry_for_a_node_replaces_the_earlier_one() {
    let graph = GraphAdjacencyMatrix::new(vec![(0, vec![1]), (1, vec![2]), (0, vec![3])]);
    assert_eq!(graph.neighbours(&0), Some(&vec![3]));
    let order: Vec<i32> = graph.depth_first(0).collect();
    assert_eq!(order, vec![0, 3]);
}

#[test]
fn cursor_can_be_made_directly_for_either_order() {
    let graph = sample();
    let depth: Vec<i32> = NodesIterator::<i32, true>::new(0, &graph).collect();
    assert_eq!(depth, vec![0, 2, 3, 1, 4]);
    let breadth: Vec<i32> = NodesIterator::<i32, false>::new(0, &graph).collect();
    assert_eq!(breadth, vec![0, 1, 2, 4, 3]);
}

#[test]
fn nodes_can_be_strings() {
    let graph = GraphAdjacencyMatrix::new(
        vec![("root", vec!["left", "right"]), ("left", vec!["leaf"]), ("right", vec!["leaf"])],
    );
    let depth: Vec<&str> = graph.depth_first("root").collect();
    assert_eq!(depth, vec!["root", "right", "leaf", "left"]);
    let breadth: Vec<&str> = graph.breadth_first("root").collect();
    assert_eq!(breadth, vec!["root", "left", "right", "leaf"]);
}

#[test]
fn graph_can_be_printed_for_debugging() {
    let graph = GraphAdjacencyMatrix::new(vec![(1, vec![2])]);
    let text = format!("{:?}", graph);
    assert!(text.contains("GraphAdjacencyMatrix"));
    assert!(text.contains("adjacency"));
}
