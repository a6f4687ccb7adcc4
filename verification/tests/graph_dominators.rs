//! Dominators in flow graphs. Nodes with letters stand for their character
//! codes.

use std::collections::HashMap;

use jj_core::graph_dominators::DominatorFinder;
use jj_core::graph_dominators::DominatorFinderError;
use jj_core::graph_dominators::FlowGraph;
use jj_core::graph_dominators::SimpleDirectedGraph;

fn n(name: &str) -> u64 {
    u64::from(name.as_bytes()[0])
}

fn name(node: u64) -> String {
    char::from(u8::try_from(node).unwrap()).to_string()
}

fn names(nodes: &[u64]) -> Vec<String> {
    nodes.iter().map(|&node| name(node)).collect()
}

fn graph(edges: &[(&str, &str)]) -> SimpleDirectedGraph {
    let edges: Vec<(u64, u64)> = edges.iter().map(|(u, v)| (n(u), n(v))).collect();
    SimpleDirectedGraph::new(&edges)
}

fn named_edges(graph: &SimpleDirectedGraph) -> Vec<(String, String)> {
    graph
        .edges()
        .into_iter()
        .map(|(u, v)| (name(u), name(v)))
        .collect()
}

fn pairs(edges: &[(&str, &str)]) -> Vec<(String, String)> {
    edges
        .iter()
        .map(|(u, v)| (u.to_string(), v.to_string()))
        .collect()
}

fn closest(df: &DominatorFinder, nodes: &[&str]) -> Result<String, DominatorFinderError> {
    let nodes: Vec<u64> = nodes.iter().map(|node| n(node)).collect();
    df.find_closest_common_dominator(&nodes).map(name)
}

fn dominators(pairs: &[(&str, &str)]) -> HashMap<u64, u64> {
    pairs.iter().map(|(u, v)| (n(u), n(v))).collect()
}

fn post_order(start: char, neighbors: &[(char, &[char])]) -> Vec<char> {
    let edges: Vec<(u64, u64)> = neighbors
        .iter()
        .flat_map(|(node, children)| {
            children
                .iter()
                .map(|child| (u64::from(*node as u32), u64::from(*child as u32)))
        })
        .collect();
    SimpleDirectedGraph::new(&edges)
        .get_postorder(u64::from(start as u32))
        .into_iter()
        .map(|node| char::from(u8::try_from(node).unwrap()))
        .collect()
}

#[test]
fn test_closest_common_dominator_split() -> Result<(), DominatorFinderError> {
    //   /-> B \
    // A        -> D
    //   \-> C /
    let flow_graph = FlowGraph::new(
        graph(&[("A", "B"), ("A", "C"), ("B", "D"), ("C", "D")]),
        n("A"),
    );
    let df = DominatorFinder::calculate(&flow_graph)?;
    assert_eq!(closest(&df, &["A"])?, "A");
    assert_eq!(closest(&df, &["B"])?, "B");
    assert_eq!(closest(&df, &["C"])?, "C");
    assert_eq!(closest(&df, &["D"])?, "D");
    assert_eq!(closest(&df, &["B", "C"])?, "A");
    assert_eq!(closest(&df, &["B", "D"])?, "A");
    assert_eq!(closest(&df, &["B", "C", "D"])?, "A");
    Ok(())
}

#[test]
fn test_closest_common_dominator_linear_chain() -> Result<(), DominatorFinderError> {
    // A -> B -> C -> D
    let flow_graph = FlowGraph::new(
        graph(&[("A", "B"), ("B", "C"), ("C", "D")]),
        n("A"),
    );
    let df = DominatorFinder::calculate(&flow_graph)?;
    assert_eq!(closest(&df, &["A"])?, "A");
    assert_eq!(closest(&df, &["B"])?, "B");
    assert_eq!(closest(&df, &["C"])?, "C");
    assert_eq!(closest(&df, &["D"])?, "D");
    assert_eq!(closest(&df, &["A", "B"])?, "A");
    assert_eq!(closest(&df, &["A", "C"])?, "A");
    assert_eq!(closest(&df, &["A", "D"])?, "A");
    assert_eq!(closest(&df, &["B", "D"])?, "B");
    assert_eq!(closest(&df, &["C", "D"])?, "C");
    assert_eq!(closest(&df, &["A", "B", "C", "D"])?, "A");
    Ok(())
}

#[test]
fn test_closest_common_dominator_classic_diamond() -> Result<(), DominatorFinderError> {
    //      /-> B -\
    //    A          -> D -> E
    //      \-> C -/
    let flow_graph = FlowGraph::new(
        graph(&[("A", "B"), ("A", "C"), ("B", "D"), ("C", "D"), ("D", "E")]),
        n("A"),
    );
    let df = DominatorFinder::calculate(&flow_graph)?;
    assert_eq!(closest(&df, &["B", "C"])?, "A");
    assert_eq!(closest(&df, &["B", "E"])?, "A");
    assert_eq!(closest(&df, &["D"])?, "D");
    assert_eq!(closest(&df, &["D", "E"])?, "D");
    assert_eq!(closest(&df, &["A", "D"])?, "A");
    Ok(())
}

#[test]
fn test_closest_common_dominator_single_node() -> Result<(), DominatorFinderError> {
    // A
    let flow_graph = FlowGraph::new(graph(&[("A", "A")]), n("A"));
    let df = DominatorFinder::calculate(&flow_graph)?;
    assert_eq!(closest(&df, &["A"])?, "A");
    Ok(())
}

#[test]
fn test_invalid_flowgraph() {
    //       /-> E
    // A -> B
    //       \-> F
    //           ^
    //           |
    // C --> D --/
    let flow_graph = FlowGraph::new(
        graph(&[("A", "B"), ("B", "E"), ("B", "F"), ("C", "D"), ("D", "F")]),
        n("A"),
    );
    assert_eq!(
        DominatorFinder::calculate(&flow_graph).err(),
        Some(DominatorFinderError::UnreachableNodesInFlowGraph)
    );
}

#[test]
fn test_closest_common_dominator_simple_cycle_with_entry() -> Result<(), DominatorFinderError> {
    //
    // A -> B -> C -> D
    //      ^         |
    //      |         |
    //      \--------/
    let flow_graph = FlowGraph::new(
        graph(&[("A", "B"), ("B", "C"), ("C", "D"), ("D", "B")]),
        n("A"),
    );
    let df = DominatorFinder::calculate(&flow_graph)?;
    assert_eq!(closest(&df, &["A", "B"])?, "A");
    assert_eq!(closest(&df, &["A", "C"])?, "A");
    assert_eq!(closest(&df, &["A", "B", "C"])?, "A");
    assert_eq!(closest(&df, &["B", "C"])?, "B");
    assert_eq!(closest(&df, &["B", "C", "D"])?, "B");
    assert_eq!(closest(&df, &["A"])?, "A");
    assert_eq!(closest(&df, &["B"])?, "B");
    assert_eq!(closest(&df, &["C"])?, "C");
    assert_eq!(closest(&df, &["D"])?, "D");
    Ok(())
}

#[test]
fn test_closest_common_dominator_figure_eight_with_bridge() -> Result<(), DominatorFinderError>
{
    //
    //  A -> B -> C -> D -> E -> F -> G
    //       ^         |    ^         |
    //       |         |    |         |
    //        \_______/      \_______/
    let flow_graph = FlowGraph::new(
        graph(&[
            ("A", "B"), // entry
            ("B", "C"),
            ("C", "D"),
            ("D", "B"), // Loop 1
            ("D", "E"), // Bridge
            ("E", "F"),
            ("F", "G"),
            ("G", "E"), // Loop 2
        ]),
        n("A"),
    );
    let df = DominatorFinder::calculate(&flow_graph)?;
    assert_eq!(closest(&df, &["B", "C"])?, "B");
    assert_eq!(closest(&df, &["B", "D"])?, "B");
    assert_eq!(closest(&df, &["B", "E"])?, "B");
    assert_eq!(closest(&df, &["C", "E"])?, "C");
    assert_eq!(closest(&df, &["C", "F"])?, "C");
    assert_eq!(closest(&df, &["D", "E"])?, "D");
    assert_eq!(closest(&df, &["D", "F"])?, "D");
    assert_eq!(closest(&df, &["E", "G"])?, "E");
    assert_eq!(closest(&df, &["F", "G"])?, "F");
    Ok(())
}

#[test]
fn test_closest_common_dominator_figure_eight() -> Result<(), DominatorFinderError> {
    //
    //  A -> B -> C --> D   -> E -> F
    //       ^         | ^          |
    //       |         | |          |
    //        \_______/  \_________/
    let flow_graph = FlowGraph::new(
        graph(&[
            ("A", "B"), // entry
            ("B", "C"),
            ("C", "D"),
            ("D", "B"), // Loop 1
            ("D", "E"),
            ("E", "F"),
            ("F", "D"), // Loop 2
        ]),
        n("A"),
    );
    let df = DominatorFinder::calculate(&flow_graph)?;
    assert_eq!(closest(&df, &["B", "C"])?, "B");
    assert_eq!(closest(&df, &["B", "D"])?, "B");
    assert_eq!(closest(&df, &["B", "E"])?, "B");
    assert_eq!(closest(&df, &["C", "D"])?, "C");
    assert_eq!(closest(&df, &["C", "E"])?, "C");
    assert_eq!(closest(&df, &["C", "F"])?, "C");
    assert_eq!(closest(&df, &["D", "E"])?, "D");
    assert_eq!(closest(&df, &["D", "F"])?, "D");
    assert_eq!(closest(&df, &["E", "F"])?, "E");
    Ok(())
}

#[test]
fn test_closest_common_dominator_entry_cycle_dominance() -> Result<(), DominatorFinderError> {
    // A -> B -> C
    //      ^    |
    //      |----/
    let flow_graph = FlowGraph::new(
        graph(&[("A", "B"), ("B", "C"), ("C", "B")]),
        n("A"),
    );
    let df = DominatorFinder::calculate(&flow_graph)?;
    assert_eq!(closest(&df, &["A", "B"])?, "A");
    assert_eq!(closest(&df, &["A", "C"])?, "A");
    assert_eq!(closest(&df, &["B", "C"])?, "B");
    assert_eq!(closest(&df, &["A", "B", "C"])?, "A");
    Ok(())
}

#[test]
fn test_closest_common_dominator_nested_loops() -> Result<(), DominatorFinderError> {
    //           /---> E
    //           |     |
    //           |     |
    // A -> B -> C <--/
    //      ^    |
    //      |    V
    //      \----D
    let flow_graph = FlowGraph::new(
        graph(&[
            ("A", "B"),
            ("B", "C"),
            ("C", "D"),
            ("C", "E"),
            ("E", "C"),
            ("D", "B"),
        ]),
        n("A"),
    );
    let df = DominatorFinder::calculate(&flow_graph)?;
    assert_eq!(closest(&df, &["A", "B"])?, "A");
    assert_eq!(closest(&df, &["A", "C"])?, "A");
    assert_eq!(closest(&df, &["B", "C"])?, "B");
    assert_eq!(closest(&df, &["B", "D"])?, "B");
    assert_eq!(closest(&df, &["B", "E"])?, "B");
    assert_eq!(closest(&df, &["C", "D"])?, "C");
    assert_eq!(closest(&df, &["C", "E"])?, "C");
    assert_eq!(closest(&df, &["D", "E"])?, "C");
    assert_eq!(closest(&df, &["B", "C", "D"])?, "B");
    assert_eq!(closest(&df, &["B", "C", "E"])?, "B");
    assert_eq!(closest(&df, &["B", "D", "E"])?, "B");
    assert_eq!(closest(&df, &["C", "D", "E"])?, "C");
    assert_eq!(closest(&df, &["B", "C", "D", "E"])?, "B");
    Ok(())
}

#[test]
fn test_irreducible_graph_cooper_harvey_kennedy_fig2() -> Result<(), DominatorFinderError> {
    //        5
    //     /    \
    //    |      |
    //    V      V
    //    4      3
    //    |      |
    //    V      V
    //    1 <==> 2
    let graph = SimpleDirectedGraph::new(&[(1, 2), (2, 1), (3, 2), (4, 1), (5, 4), (5, 3)]);
    let flow_graph = FlowGraph::new(graph, 5);
    let df = DominatorFinder::calculate(&flow_graph)?;
    assert_eq!(
        df.get_immediate_dominators(),
        HashMap::from([(1, 5), (2, 5), (3, 5), (4, 5), (5, 5),])
    );
    Ok(())
}

#[test]
fn test_irreducible_graph_cooper_harvey_kennedy_fig3() -> Result<(), DominatorFinderError> {
    //     6
    //   /   \
    //  |     |
    //  v     v
    //  5     4 --
    //  |     |    \
    //  v     v     v
    //  1 <=> 2 <=> 3
    let graph = SimpleDirectedGraph::new(&[
        (1, 2),
        (2, 1),
        (2, 3),
        (3, 2),
        (5, 1),
        (4, 2),
        (4, 3),
        (6, 5),
        (6, 4),
    ]);
    let flow_graph = FlowGraph::new(graph, 6);
    let df = DominatorFinder::calculate(&flow_graph)?;
    assert_eq!(
        df.get_immediate_dominators(),
        HashMap::from([(1, 6), (2, 6), (3, 6), (4, 6), (5, 6), (6, 6),])
    );
    assert_eq!(df.find_closest_common_dominator(&[2, 3])?, 6);
    Ok(())
}

#[test]
fn test_dominator_tree_with_three_levels() -> Result<(), DominatorFinderError> {
    // Graph taken from https://en.wikipedia.org/wiki/Dominator_(graph_theory)
    //     1
    //     |  /---\
    //     v /     \
    //     2 <--\    \
    //    / \    \    \
    //   /   \    \    \
    //  |     |    |   |
    //  v     v    |   |
    //  3     4    |   |
    //  |     |    |   |
    //   \    v    |   v
    //    --> 5 --/    6
    //
    let graph =
        SimpleDirectedGraph::new(&[(1, 2), (2, 3), (2, 4), (2, 6), (3, 5), (4, 5), (5, 2)]);
    let flow_graph = FlowGraph::new(graph, 1);
    let df = DominatorFinder::calculate(&flow_graph)?;
    assert_eq!(
        df.get_immediate_dominators(),
        HashMap::from([(1, 1), (2, 1), (3, 2), (4, 2), (5, 2), (6, 2),])
    );
    assert_eq!(df.find_closest_common_dominator(&[1, 6])?, 1);
    assert_eq!(df.find_closest_common_dominator(&[2, 3])?, 2);
    assert_eq!(df.find_closest_common_dominator(&[2, 4])?, 2);
    assert_eq!(df.find_closest_common_dominator(&[2, 5])?, 2);
    assert_eq!(df.find_closest_common_dominator(&[2, 6])?, 2);
    assert_eq!(df.find_closest_common_dominator(&[3, 4])?, 2);
    assert_eq!(df.find_closest_common_dominator(&[3, 5])?, 2);
    assert_eq!(df.find_closest_common_dominator(&[3, 6])?, 2);
    assert_eq!(df.find_closest_common_dominator(&[4, 5])?, 2);
    assert_eq!(df.find_closest_common_dominator(&[4, 6])?, 2);
    assert_eq!(df.find_closest_common_dominator(&[5, 6])?, 2);
    assert_eq!(df.find_closest_common_dominator(&[2, 3, 5])?, 2);
    assert_eq!(df.find_closest_common_dominator(&[3, 4, 5])?, 2);
    assert_eq!(df.find_closest_common_dominator(&[3, 4, 5, 6])?, 2);
    Ok(())
}

#[test]
fn test_big_graph_fig_18_3() -> Result<(), DominatorFinderError> {
    // Graph taken from Modern Compiler Implementation in Java,
    // by Appel and Palsberg, 2004
    //
    //           1
    //           |
    //           v
    //      /--> 2 <--\
    //      |   / \   |
    //      |  v   v  |
    //      \- 3   4 -/
    //             /\
    //            /  \
    //           v    v
    //     /-->  5    6
    //    /    /   \  /
    //   /    |     ||
    //  /     v     vv
    // |  /-> 8      7
    // |  |   |      |
    // |  |   v      v
    // |  \-- 9      11
    // |      |      |
    // |      v      v
    //  \--- 10 --> 12
    //
    let graph = SimpleDirectedGraph::new(&[
        (1, 2),
        (2, 3),
        (2, 4),
        (3, 2),
        (4, 2),
        (4, 5),
        (4, 6),
        (5, 7),
        (5, 8),
        (6, 7),
        (7, 11),
        (8, 9),
        (9, 8),
        (9, 10),
        (10, 5),
        (10, 12),
        (11, 12),
    ]);
    let flow_graph = FlowGraph::new(graph, 1);
    let df = DominatorFinder::calculate(&flow_graph)?;
    assert_eq!(
        df.get_immediate_dominators(),
        HashMap::from([
            (1, 1),
            (2, 1),
            (3, 2),
            (4, 2),
            (5, 4),
            (6, 4),
            (7, 4),
            (8, 5),
            (9, 8),
            (10, 9),
            (11, 7),
            (12, 4)
        ])
    );
    assert_eq!(df.find_closest_common_dominator(&[6, 3])?, 2);
    assert_eq!(df.find_closest_common_dominator(&[11, 9, 12])?, 4);
    assert_eq!(df.find_closest_common_dominator(&[11, 9, 5])?, 4);
    assert_eq!(df.find_closest_common_dominator(&[11, 10])?, 4);
    assert_eq!(df.find_closest_common_dominator(&[10, 11, 12, 3, 6])?, 2);
    Ok(())
}

#[test]
fn test_big_graph_fig_19_8() -> Result<(), DominatorFinderError> {
    // Graph taken from Modern Compiler Implementation in Java,
    // by Appel and Palsberg, 2004
    //
    //          /----- A ----\
    //         |              |
    //         v              v
    //  /----> B ---\     /-> C --\
    //  |      |    |     |   |   |
    //  |      v    |     |   v   |
    //  |  /-- D    |     \-- E   |
    //  |  |   |    |         |   |
    //  |  |   |    |         |   |
    //  |  v   |    v         v   v
    //  |  F   \--> G           H
    //  |  |\       |          /
    //  |  | \      v         /
    //  |  |  \ /---J        /
    //  |  |   X            /
    //  |  | /  \          /
    //  |  vv    v         |
    //  |  I     K         |
    //  |  \    /          |
    //  |   \  /           |
    //  |    vv            v
    //  \---- L ---------> M
    //
    let graph = graph(&[
        ("A", "B"),
        ("A", "C"),
        ("B", "D"),
        ("B", "G"),
        ("C", "E"),
        ("C", "H"),
        ("D", "F"),
        ("D", "G"),
        ("E", "C"),
        ("E", "H"),
        ("F", "I"),
        ("F", "K"),
        ("G", "J"),
        ("H", "M"),
        ("I", "L"),
        ("J", "I"),
        ("K", "L"),
        ("L", "B"),
        ("L", "M"),
    ]);
    let flow_graph = FlowGraph::new(graph, n("A"));
    let df = DominatorFinder::calculate(&flow_graph)?;
    assert_eq!(
        df.get_immediate_dominators(),
        dominators(&[
            ("A", "A"),
            ("B", "A"),
            ("C", "A"),
            ("D", "B"),
            ("E", "C"),
            ("F", "D"),
            ("G", "B"),
            ("H", "C"),
            ("I", "B"),
            ("J", "G"),
            ("K", "F"),
            ("L", "B"),
            ("M", "A"),
        ])
    );
    assert_eq!(closest(&df, &["K", "L"])?, "B");
    assert_eq!(closest(&df, &["K", "C"])?, "A");
    assert_eq!(closest(&df, &["B", "G", "J"])?, "B");
    Ok(())
}

#[test]
fn test_closest_common_dominator_tree() -> Result<(), DominatorFinderError> {
    // A -> B -> C
    // \     \-> D
    //  \------> E
    let flow_graph = FlowGraph::new(
        graph(&[("A", "B"), ("B", "C"), ("B", "D"), ("A", "E")]),
        n("A"),
    );
    let df = DominatorFinder::calculate(&flow_graph)?;
    assert_eq!(closest(&df, &["B", "C"])?, "B");
    assert_eq!(closest(&df, &["B", "E"])?, "A");
    assert_eq!(closest(&df, &["C", "D"])?, "B");
    assert_eq!(closest(&df, &["C", "E"])?, "A");
    assert_eq!(closest(&df, &["B", "C", "D"])?, "B");
    assert_eq!(closest(&df, &["C", "D", "E"])?, "A");
    Ok(())
}

#[test]
fn test_closest_common_dominator_bypassing_path() -> Result<(), DominatorFinderError> {
    // A -> B -> C -> D
    // |              ^
    // v              |
    // E -------------/
    let flow_graph = FlowGraph::new(
        graph(&[("A", "B"), ("B", "C"), ("C", "D"), ("A", "E"), ("E", "D")]),
        n("A"),
    );
    let df = DominatorFinder::calculate(&flow_graph)?;
    assert_eq!(closest(&df, &["B", "C"])?, "B");
    assert_eq!(closest(&df, &["B", "D"])?, "A");
    assert_eq!(closest(&df, &["B", "E"])?, "A");
    assert_eq!(closest(&df, &["C", "D"])?, "A");
    assert_eq!(closest(&df, &["C", "E"])?, "A");
    assert_eq!(closest(&df, &["D", "E"])?, "A");
    assert_eq!(closest(&df, &["B", "C", "D"])?, "A");
    assert_eq!(closest(&df, &["C", "D", "E"])?, "A");
    Ok(())
}

#[test]
fn test_closest_common_dominator_self_loop_handling() -> Result<(), DominatorFinderError> {
    // A->A (Self loop), A->B
    let flow_graph = FlowGraph::new(graph(&[("A", "A"), ("A", "B")]), n("A"));
    let df = DominatorFinder::calculate(&flow_graph)?;
    assert_eq!(closest(&df, &["A"])?, "A");
    Ok(())
}

#[test]
fn test_closest_common_dominator_multi_edge() -> Result<(), DominatorFinderError> {
    // Shape: A->B (x2), B->C.
    let flow_graph = FlowGraph::new(
        graph(&[
            ("A", "B"),
            ("A", "B"), // Duplicate edge
            ("B", "C"),
        ]),
        n("A"),
    );
    let df = DominatorFinder::calculate(&flow_graph)?;
    assert_eq!(closest(&df, &["A"])?, "A");
    assert_eq!(closest(&df, &["B", "C"])?, "B");
    Ok(())
}

#[test]
fn test_closest_common_dominator_invalid_target_set() -> Result<(), DominatorFinderError> {
    // A -> B
    let flow_graph = FlowGraph::new(graph(&[("A", "B")]), n("A"));
    let df = DominatorFinder::calculate(&flow_graph)?;
    assert_eq!(
        df.find_closest_common_dominator(&[]),
        Err(DominatorFinderError::EmptyTargetSet)
    );
    Ok(())
}

#[test]
fn test_closest_common_dominator_repeated_node() -> Result<(), DominatorFinderError> {
    // A -> B
    let flow_graph = FlowGraph::new(graph(&[("A", "B")]), n("A"));
    let df = DominatorFinder::calculate(&flow_graph)?;
    assert_eq!(closest(&df, &["A", "B", "A", "B"])?, "A");
    Ok(())
}

#[test]
fn test_simple_directed_graph_nodes() {
    let graph = graph(&[("A", "B"), ("B", "C")]);
    assert_eq!(names(&graph.nodes()), ["A", "B", "C"]);
    assert_eq!(graph.num_nodes(), 3);

    let graph = SimpleDirectedGraph::new(&[]);
    assert!(graph.nodes().is_empty());
    assert_eq!(graph.num_nodes(), 0);
}

#[test]
fn test_simple_directed_graph_edges() {
    let graph = graph(&[("A", "B"), ("B", "C"), ("A", "C")]);
    assert_eq!(
        named_edges(&graph),
        pairs(&[("A", "B"), ("A", "C"), ("B", "C")])
    );

    let graph = SimpleDirectedGraph::new(&[]);
    assert!(graph.edges().is_empty());
}

#[test]
fn test_simple_directed_graph_adjacent_nodes() {
    let graph = graph(&[("A", "B"), ("A", "C"), ("B", "D")]);
    assert_eq!(names(&graph.adjacent_nodes(n("A")).unwrap()), ["B", "C"]);
    assert_eq!(names(&graph.adjacent_nodes(n("B")).unwrap()), ["D"]);
    assert!(graph.adjacent_nodes(n("C")).unwrap().is_empty());
    assert!(graph.adjacent_nodes(n("Z")).is_none());
}

#[test]
fn test_simple_directed_graph_contains_node() {
    let graph = graph(&[("A", "B"), ("B", "C")]);
    assert!(graph.contains_node(n("A")));
    assert!(graph.contains_node(n("B")));
    assert!(graph.contains_node(n("C")));
    assert!(!graph.contains_node(n("D")));
}

#[test]
fn test_simple_directed_graph_new() {
    let first = graph(&[("A", "B"), ("A", "C"), ("B", "C"), ("A", "B")]);
    assert_eq!(names(&first.nodes()), ["A", "B", "C"]);
    assert_eq!(
        named_edges(&first),
        pairs(&[("A", "B"), ("A", "C"), ("B", "C")])
    );

    let second = graph(&[("B", "C"), ("A", "B")]);
    assert_eq!(names(&second.nodes()), ["B", "C", "A"]);
    assert_eq!(named_edges(&second), pairs(&[("B", "C"), ("A", "B")]));
}

#[test]
fn test_flow_graph_new() {
    let flow_graph = FlowGraph::new(graph(&[("A", "B")]), n("A"));
    assert_eq!(named_edges(&flow_graph.graph), pairs(&[("A", "B")]));
    assert_eq!(flow_graph.start_node, n("A"));
    let flow_graph = FlowGraph::new(graph(&[("A", "B")]), n("C"));
    assert_eq!(named_edges(&flow_graph.graph), pairs(&[("A", "B")]));
    assert_eq!(flow_graph.start_node, n("C"));
}

#[test]
fn test_post_order() {
    // This graph:
    //  o F
    //  |\
    //  o | E
    //  | o D
    //  | o C
    //  | o B
    //  |/
    //  o A
    let neighbors: &[(char, &[char])] = &[
        ('A', &[]),
        ('B', &['A']),
        ('C', &['B']),
        ('D', &['C']),
        ('E', &['A']),
        ('F', &['E', 'D']),
    ];
    assert_eq!(
        post_order('F', neighbors),
        ['A', 'E', 'B', 'C', 'D', 'F']
    );
    assert_eq!(post_order('E', neighbors), ['A', 'E']);
    assert_eq!(post_order('D', neighbors), ['A', 'B', 'C', 'D']);
    assert_eq!(post_order('A', neighbors), ['A']);

    // This graph:
    //  o I
    //  |\
    //  | o H
    //  | |\
    //  | | o G
    //  | o | F
    //  | | o E
    //  o |/ D
    //  | o C
    //  o | B
    //  |/
    //  o A
    let neighbors: &[(char, &[char])] = &[
        ('A', &[]),
        ('B', &['A']),
        ('C', &['A']),
        ('D', &['B']),
        ('E', &['C']),
        ('F', &['C']),
        ('G', &['E']),
        ('H', &['F', 'G']),
        ('I', &['D', 'H']),
    ];
    assert_eq!(
        post_order('I', neighbors),
        ['A', 'B', 'D', 'C', 'F', 'E', 'G', 'H', 'I']
    );

    // This graph:
    //  o I
    //  |\
    //  | |\
    //  | | |\
    //  | | | o h (h > I)
    //  | | |/|
    //  | | o | G
    //  | |/| o f
    //  | o |/ e (e > I, G)
    //  |/| o D
    //  o |/ C
    //  | o b (b > D)
    //  |/
    //  o A
    let neighbors: &[(char, &[char])] = &[
        ('A', &[]),
        ('b', &['A']),
        ('C', &['A']),
        ('D', &['b']),
        ('e', &['C', 'b']),
        ('f', &['D']),
        ('G', &['e', 'D']),
        ('h', &['G', 'f']),
        ('I', &['C', 'e', 'G', 'h']),
    ];
    assert_eq!(
        post_order('I', neighbors),
        ['A', 'C', 'b', 'e', 'D', 'G', 'f', 'h', 'I']
    );

    // This graph:
    //  o G
    //  |\
    //  | o F
    //  o | E
    //  | o D
    //  |/
    //  o C
    //  o B
    //  o A
    let neighbors: &[(char, &[char])] = &[
        ('A', &[]),
        ('B', &['A']),
        ('C', &['B']),
        ('D', &['C']),
        ('E', &['C']),
        ('F', &['D']),
        ('G', &['E', 'F']),
    ];
    assert_eq!(
        post_order('G', neighbors),
        ['A', 'B', 'C', 'E', 'D', 'F', 'G']
    );

    // This graph:
    //  o G
    //  |\
    //  o | F
    //  o | E
    //  | o D
    //  |/
    //  o c (c > E, D)
    //  o B
    //  o A
    let neighbors: &[(char, &[char])] = &[
        ('A', &[]),
        ('B', &['A']),
        ('c', &['B']),
        ('D', &['c']),
        ('E', &['c']),
        ('F', &['E']),
        ('G', &['F', 'D']),
    ];
    assert_eq!(
        post_order('G', neighbors),
        ['A', 'B', 'c', 'E', 'F', 'D', 'G']
    );

    // This graph:
    //  o F
    //  |\
    //  o | E
    //  | o D
    //  | | o C
    //  | | |
    //  | | o B
    //  | |/
    //  |/
    //  o A
    let neighbors: &[(char, &[char])] = &[
        ('A', &[]),
        ('B', &['A']),
        ('C', &['B']),
        ('D', &['A']),
        ('E', &['A']),
        ('F', &['E', 'D']),
    ];
    assert_eq!(post_order('F', neighbors), ['A', 'E', 'D', 'F']);
    assert_eq!(post_order('C', neighbors), ['A', 'B', 'C']);

    // This graph:
    //  o D
    //  | \
    //  o | C
    //    o B
    //    o A
    let neighbors: &[(char, &[char])] = &[
        ('A', &[]),
        ('B', &['A']),
        ('C', &[]),
        ('D', &['C', 'B']),
    ];
    assert_eq!(post_order('D', neighbors), ['C', 'A', 'B', 'D']);

    // This graph:
    //  o C
    //  o B
    //  o A (to C)
    let neighbors: &[(char, &[char])] = &[('A', &['C']), ('B', &['A']), ('C', &['B'])];
    assert_eq!(post_order('C', neighbors), ['A', 'B', 'C']);
    assert_eq!(post_order('B', neighbors), ['C', 'A', 'B']);
    assert_eq!(post_order('A', neighbors), ['B', 'C', 'A']);
}

#[test]
fn targets_outside_the_graph_are_refused() {
    let flow_graph = FlowGraph::new(graph(&[("A", "B"), ("B", "C")]), n("A"));
    let df = DominatorFinder::calculate(&flow_graph).unwrap();
    assert_eq!(
        closest(&df, &["B", "Z"]),
        Err(DominatorFinderError::UnknownNodeInTargetSet)
    );
}

#[test]
fn the_closest_common_dominator_dominates_all_targets() {
    // Every common dominator of I and K in this graph dominates B.
    let flow_graph = FlowGraph::new(
        graph(&[
            ("A", "B"),
            ("B", "D"),
            ("B", "G"),
            ("D", "F"),
            ("F", "I"),
            ("F", "K"),
            ("G", "I"),
        ]),
        n("A"),
    );
    let df = DominatorFinder::calculate(&flow_graph).unwrap();
    assert_eq!(closest(&df, &["I", "K"]), Ok("B".to_owned()));
    assert_eq!(closest(&df, &["I", "K", "B", "A"]), Ok("A".to_owned()));
    let idoms = df.get_immediate_dominators();
    assert_eq!(idoms[&n("I")], n("B"));
    assert_eq!(idoms[&n("A")], n("A"));
}
