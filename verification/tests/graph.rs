use jj_sync_prs::graph::Graph;

fn stack_graph(names: &[&str], edges: &[(&str, &str)]) -> Graph {
    let mut graph = Graph::default();
    for name in names {
        graph.get_or_insert(name);
    }
    for (from, to) in edges {
        let from = graph.get_or_insert(from);
        let to = graph.get_or_insert(to);
        graph.add_edge(from, to);
    }
    graph
}

#[test]
fn get_or_insert_reuses_existing_node() {
    let mut graph = Graph::default();
    let first = graph.get_or_insert("main");
    let second = graph.get_or_insert("main");

    assert_eq!(first, second);
}

#[test]
fn iter_edges_from_returns_empty_for_missing_node() {
    let graph = Graph::default();
    assert_eq!(graph.iter_edges_from("missing").len(), 0);
}

#[test]
fn add_edge_and_iter_edges_from_work() {
    let mut graph = Graph::default();
    let main = graph.get_or_insert("main");
    let feat = graph.get_or_insert("feat");
    graph.add_edge(main, feat);

    let children = graph.iter_edges_from("main");
    assert_eq!(children, vec!["feat"]);
}

#[test]
fn duplicate_edges_are_deduplicated() {
    let mut graph = Graph::default();
    let main = graph.get_or_insert("main");
    let feat = graph.get_or_insert("feat");
    graph.add_edge(main, feat);
    graph.add_edge(main, feat);

    let edges = graph.iter_edges();
    assert_eq!(edges, vec![("main", "feat")]);
}

#[test]
fn to_dot_contains_nodes_and_edges() {
    let mut graph = Graph::default();
    let main = graph.get_or_insert("main");
    let feat = graph.get_or_insert("feat");
    graph.add_edge(main, feat);

    let dot = graph.to_dot();

    assert!(dot.contains("digraph Branches {"));
    assert!(dot.contains("0 [label=\"main\"]"));
    assert!(dot.contains("1 [label=\"feat\"]"));
    assert!(dot.contains("0 -> 1;"));
    assert!(dot.contains("}"));
}

#[test]
fn numbers_count_up_and_stay() {
    let mut graph = Graph::default();
    assert_eq!(graph.get_or_insert("a"), 0);
    assert_eq!(graph.get_or_insert("b"), 1);
    assert_eq!(graph.get_or_insert(""), 2);
    assert_eq!(graph.get_or_insert("a"), 0);
    assert_eq!(graph.get_or_insert("b"), 1);
}

#[test]
fn children_come_in_the_order_of_their_numbers() {
    let graph = stack_graph(
        &["main", "x", "y", "z"],
        &[("main", "z"), ("main", "x"), ("x", "y"), ("main", "y")],
    );
    assert_eq!(graph.iter_edges_from("main"), vec!["x", "y", "z"]);
    assert_eq!(graph.iter_edges_from("x"), vec!["y"]);
    assert!(graph.iter_edges_from("y").is_empty());
    assert_eq!(
        graph.iter_edges(),
        vec![("main", "x"), ("main", "y"), ("main", "z"), ("x", "y")]
    );
}

#[test]
fn new_edge_leaves_other_branches_alone() {
    let mut graph = stack_graph(&[], &[("main", "a"), ("a", "b")]);
    let main = graph.get_or_insert("main");
    let c = graph.get_or_insert("c");
    graph.add_edge(main, c);
    assert_eq!(graph.iter_edges_from("main"), vec!["a", "c"]);
    assert_eq!(graph.iter_edges_from("a"), vec!["b"]);
}

#[test]
fn dot_text_of_an_empty_graph() {
    assert_eq!(Graph::default().to_dot(), "digraph Branches {\n}\n");
}

#[test]
fn dot_text_lists_nodes_then_edges() {
    let names = ["n0", "n1", "n2", "n3", "n4", "n5", "n6", "n7", "n8", "n9", "n10"];
    let graph = stack_graph(&names, &[("n10", "n2"), ("n0", "n10"), ("n0", "n1")]);
    let mut expected = String::from("digraph Branches {\n");
    for (i, name) in names.iter().enumerate() {
        expected.push_str(&format!("    {i} [label=\"{name}\"];\n"));
    }
    expected.push_str("    0 -> 1;\n    0 -> 10;\n    10 -> 2;\n}\n");
    assert_eq!(graph.to_dot(), expected);
}

#[test]
fn stack_height_counts_the_longest_chain() {
    let graph = stack_graph(
        &[],
        &[("main", "a"), ("a", "b"), ("a", "c"), ("c", "d"), ("b", "d"), ("d", "e")],
    );
    assert_eq!(graph.stack_height("main"), Some(5));
    assert_eq!(graph.stack_height("a"), Some(4));
    assert_eq!(graph.stack_height("e"), Some(1));
    assert_eq!(graph.stack_height("missing"), Some(1));
    assert!(graph.can_walk("main"));
}

#[test]
fn stack_height_notices_circles() {
    let graph = stack_graph(&[], &[("main", "a"), ("a", "b"), ("b", "a"), ("main", "c")]);
    assert_eq!(graph.stack_height("main"), None);
    assert_eq!(graph.stack_height("a"), None);
    assert_eq!(graph.stack_height("b"), None);
    assert_eq!(graph.stack_height("c"), Some(1));
    assert!(!graph.can_walk("main"));
    assert!(graph.can_walk("c"));
    assert!(!graph.can_walk("a"));
}
