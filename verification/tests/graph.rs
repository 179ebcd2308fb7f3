use std::collections::HashMap;

use csp_solver::graph::{Graph, InputEdge, NodeIndex};

fn generate_test_graphs<'a>() -> Vec<(Graph<&'a str>, HashMap<usize, usize>)> {
    let mut graphs = vec![];

    let nodes = vec!["S", "A", "B", "C", "D", "E", "F", "G"];
    let edges = vec![
        InputEdge { weight: 10, source: NodeIndex(0), target: NodeIndex(1) },
        InputEdge { weight: 4, source: NodeIndex(0), target: NodeIndex(2) },
        InputEdge { weight: 9, source: NodeIndex(1), target: NodeIndex(3) },
        InputEdge { weight: 8, source: NodeIndex(2), target: NodeIndex(3) },
        InputEdge { weight: 7, source: NodeIndex(3), target: NodeIndex(4) },
        InputEdge { weight: 9, source: NodeIndex(3), target: NodeIndex(5) },
        InputEdge { weight: 7, source: NodeIndex(4), target: NodeIndex(5) },
        InputEdge { weight: 12, source: NodeIndex(4), target: NodeIndex(6) },
        InputEdge { weight: 8, source: NodeIndex(5), target: NodeIndex(6) },
        InputEdge { weight: 5, source: NodeIndex(5), target: NodeIndex(7) },
        InputEdge { weight: 10, source: NodeIndex(6), target: NodeIndex(7) },
    ];
    let heuristic = HashMap::from([
        (0, 25),
        (1, 20),
        (2, 22),
        (3, 15),
        (4, 8),
        (5, 3),
        (6, 9),
        (7, 0),
    ]);
    graphs.push((Graph::new(nodes, edges).expect("invalid test graph"), heuristic));

    graphs
}

fn ids(path: &Vec<NodeIndex>) -> Vec<usize> {
    path.iter().map(|n| n.0).collect()
}

#[test]
pub fn add_nodes() {
    let mut graph = Graph::new_empty();

    graph.add_node(10);
    graph.add_node(10);

    assert_eq!(2, graph.node_count());
    assert_eq!(None, graph.first_outgoing_edge(NodeIndex(0)));
}

#[test]
pub fn add_nodes_edges() {
    let mut graph = Graph::new_empty();

    let mut indices = vec![];
    for _ in 0..5 {
        indices.push(graph.add_node(1));
    }

    graph
        .add_edge(1, indices[0], indices[1])
        .expect("node index out of range");
    graph
        .add_edge(1, indices[0], indices[2])
        .expect("node index out of range");
    graph
        .add_edge(1, indices[0], indices[3])
        .expect("node index out of range");

    assert_eq!(3, graph.edge_count());

    let mut edge = graph
        .first_outgoing_edge(NodeIndex(0))
        .expect("node 0 missing expected edge");
    for i in 3..0 {
        assert_eq!(i, graph.edge_target(edge).0);
        edge = graph
            .next_outgoing_edge(edge)
            .expect("node 0 missing expected edge");
    }
}

#[test]
pub fn get_successors() {
    let nodes = vec![1, 2, 3, 4, 5];
    let edges = vec![
        InputEdge { weight: 1, source: NodeIndex(0), target: NodeIndex(1) },
        InputEdge { weight: 1, source: NodeIndex(0), target: NodeIndex(2) },
        InputEdge { weight: 1, source: NodeIndex(0), target: NodeIndex(3) },
        InputEdge { weight: 1, source: NodeIndex(0), target: NodeIndex(4) },
    ];

    let graph = Graph::new(nodes, edges).expect("test graph was not valid");

    let mut hops = graph.successors(NodeIndex(0));
    let mut i = 0;
    while let Some((successor, _)) = hops.next() {
        assert_eq!(4 - i, successor.0);
        i += 1;
    }
    assert_eq!(i, 4);
}

#[test]
pub fn depth_first_search() {
    for (graph, _) in generate_test_graphs() {
        let path = graph
            .depth_first_search(NodeIndex(0), NodeIndex(7))
            .expect("could not find path");

        // Ensure that the path does start at start and end at end
        assert_eq!(path[0].0, 0);
        assert_eq!(path[path.len() - 1].0, 7);
    }
}

#[test]
pub fn a_star_first_search() {
    for (graph, heuristic) in generate_test_graphs() {
        let path = graph
            .a_star_search(NodeIndex(0), NodeIndex(7), heuristic)
            .expect("could not find path");

        // Ensure that the path does start at start and end at end
        assert_eq!(path[0].0, 0);
        assert_eq!(path[path.len() - 1].0, 7);
    }
}

#[test]
pub fn breadth_first_search() {
    for (graph, _) in generate_test_graphs() {
        let path = graph
            .breadth_first_search(NodeIndex(0), NodeIndex(7))
            .expect("could not find path");

        // Ensure that the path does start at start and end at end
        assert_eq!(path[0].0, 0);
        assert_eq!(path[path.len() - 1].0, 7);
    }
}

#[test]
fn the_three_searches_take_their_own_paths() {
    for (graph, heuristic) in generate_test_graphs() {
        // The hops of a node are added newest first, so the depth-first
        // search, which takes the path added last, follows the oldest edge.
        let deep = graph.depth_first_search(NodeIndex(0), NodeIndex(7)).unwrap();
        assert_eq!(ids(&deep), vec![0, 1, 3, 4, 5, 6, 7]);
        let broad = graph.breadth_first_search(NodeIndex(0), NodeIndex(7)).unwrap();
        assert_eq!(ids(&broad), vec![0, 2, 3, 5, 7]);
        let cheap = graph.a_star_search(NodeIndex(0), NodeIndex(7), heuristic).unwrap();
        assert_eq!(ids(&cheap), vec![0, 2, 3, 5, 7]);
    }
}

#[test]
fn search_finds_nothing_where_no_path_leads() {
    for (graph, heuristic) in generate_test_graphs() {
        assert_eq!(graph.depth_first_search(NodeIndex(7), NodeIndex(0)), None);
        assert_eq!(graph.breadth_first_search(NodeIndex(4), NodeIndex(1)), None);
        assert_eq!(graph.a_star_search(NodeIndex(6), NodeIndex(3), heuristic), None);
        // A target that is no node of the graph is never reached.
        assert_eq!(graph.breadth_first_search(NodeIndex(0), NodeIndex(8)), None);
    }
}

#[test]
fn search_from_a_node_to_itself_is_the_node() {
    for (graph, _) in generate_test_graphs() {
        let path = graph.depth_first_search(NodeIndex(3), NodeIndex(3)).unwrap();
        assert_eq!(ids(&path), vec![3]);
    }
}

#[test]
fn search_ends_on_a_graph_with_cycles() {
    let nodes = vec!['a', 'b', 'c', 'd'];
    let edges = vec![
        InputEdge { weight: 1, source: NodeIndex(0), target: NodeIndex(1) },
        InputEdge { weight: 1, source: NodeIndex(1), target: NodeIndex(0) },
        InputEdge { weight: 1, source: NodeIndex(1), target: NodeIndex(1) },
        InputEdge { weight: 1, source: NodeIndex(1), target: NodeIndex(2) },
        InputEdge { weight: 1, source: NodeIndex(2), target: NodeIndex(0) },
    ];
    let graph = Graph::new(nodes, edges).unwrap();
    assert_eq!(graph.depth_first_search(NodeIndex(0), NodeIndex(3)), None);
    assert_eq!(graph.breadth_first_search(NodeIndex(0), NodeIndex(3)), None);
    let path = graph.breadth_first_search(NodeIndex(0), NodeIndex(2)).unwrap();
    assert_eq!(ids(&path), vec![0, 1, 2]);
}

#[test]
fn a_star_prefers_the_cheaper_path() {
    // Two ways from 0 to 3: over 1 at cost 2 and over 2 at cost 20.
    let nodes = vec![(), (), (), ()];
    let edges = vec![
        InputEdge { weight: 10, source: NodeIndex(0), target: NodeIndex(2) },
        InputEdge { weight: 1, source: NodeIndex(0), target: NodeIndex(1) },
        InputEdge { weight: 10, source: NodeIndex(2), target: NodeIndex(3) },
        InputEdge { weight: 1, source: NodeIndex(1), target: NodeIndex(3) },
    ];
    let graph = Graph::new(nodes, edges).unwrap();
    let heuristic = HashMap::from([(0, 0), (1, 0), (2, 0), (3, 0)]);
    let path = graph.a_star_search(NodeIndex(0), NodeIndex(3), heuristic).unwrap();
    assert_eq!(ids(&path), vec![0, 1, 3]);
    // Costs that do not fit the machine word count as the largest word.
    let nodes = vec![(), (), ()];
    let edges = vec![
        InputEdge { weight: usize::MAX, source: NodeIndex(0), target: NodeIndex(1) },
        InputEdge { weight: usize::MAX, source: NodeIndex(1), target: NodeIndex(2) },
    ];
    let graph = Graph::new(nodes, edges).unwrap();
    let heuristic = HashMap::from([(0, 1), (1, 1), (2, 1)]);
    let path = graph.a_star_search(NodeIndex(0), NodeIndex(2), heuristic).unwrap();
    assert_eq!(ids(&path), vec![0, 1, 2]);
}

#[test]
fn graph_with_an_edge_to_a_missing_node_is_refused() {
    let edges = vec![InputEdge { weight: 1, source: NodeIndex(0), target: NodeIndex(2) }];
    assert!(Graph::new(vec![1, 2], edges).is_err());
    let mut graph = Graph::new(vec![1, 2], vec![]).unwrap();
    assert_eq!(graph.add_edge(1, NodeIndex(2), NodeIndex(0)), Err(()));
    assert_eq!(graph.add_edge(1, NodeIndex(0), NodeIndex(2)), Err(()));
    assert_eq!(graph.edge_count(), 0);
    assert_eq!(graph.add_edge(1, NodeIndex(1), NodeIndex(0)), Ok(()));
    assert_eq!(graph.edge_count(), 1);
}
