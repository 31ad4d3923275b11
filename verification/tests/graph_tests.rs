use graph_search::graph::{Edge, Graph, State};

#[test]
fn expand_empty() {
    let g = Graph::new();
    assert_eq!(g.expand("A"), Vec::<String>::new());
}

#[test]
fn expand() {
    let mut g = Graph::new();
    g.push_vid("A");
    g.push_vid("B");
    g.push_vid("F");
    g.push_edge("A", "B", Edge(0));
    g.push_edge("A", "F", Edge(0));

    assert_eq!(g.expand("A"), ["B", "F"]);
    assert_eq!(g.expand("B"), Vec::<String>::new());
}

#[test]
fn create_when_edge_is_pushed() {
    let mut g = Graph::new();
    g.push_vid("A");
    g.push_edge("A", "B", Edge(0));
    g.push_edge("A", "F", Edge(0));

    assert_eq!(g.expand("A"), ["B", "F"]);
    assert_eq!(g.expand("B"), Vec::<String>::new());
}

#[test]
fn create_when_undirected_edge_is_pushed() {
    let mut g = Graph::new();

    g.push_undirected_edge("A", "B", Edge(0));
    assert_eq!(g.expand("A"), ["B"]);
    assert_eq!(g.expand("B"), ["A"]);
}

#[test]
fn create_vertex_when_edge_is_pushed() {
    let mut g = Graph::new();

    g.push_undirected_edge("A", "B", Edge(0));

    assert!(g.get_vertex("A").is_some());
    assert!(g.get_vertex("B").is_some());
    assert!(g.get_vertex("C").is_none());
}

#[test]
fn ai_check_graph() {
    let g = Graph::running_example();

    assert_eq!(g.expand("A"), ["B", "F"]);
    assert_eq!(g.expand("B"), ["A", "D", "C"]);
    assert_eq!(g.expand("C"), ["B"]);
    assert_eq!(g.expand("D"), ["B", "F", "G"]);
    assert_eq!(g.expand("E"), ["G"]);
    assert_eq!(g.expand("F"), ["A", "D", "G"]);
}

#[test]
fn ai_check_vertices() {
    let g = Graph::running_example();

    assert!(matches!(g.get_vertex("A").unwrap(), State::Start));
    assert!(matches!(g.get_vertex("E").unwrap(), State::Goal));
    assert!(matches!(g.get_vertex("D").unwrap(), State::Neutral));
}

#[test]
fn ai_get_start_node() {
    let g = Graph::running_example();
    assert_eq!(g.get_start_node(), Some("A".to_string()));
}

#[test]
fn get_cost() {
    let g = Graph::running_example();
    assert_eq!(g.get_cost_of("A", "B"), Some(5));
}

#[test]
fn dont_get_cost() {
    let g = Graph::running_example();
    assert_eq!(g.get_cost_of("A", "Z"), None);
}

#[test]
fn running_example_check_graph() {
    let g = Graph::running_example();

    assert_eq!(g.expand("A"), ["B", "F"]);
    assert_eq!(g.expand("B"), ["A", "D", "C"]);
    assert_eq!(g.expand("C"), ["B"]);
    assert_eq!(g.expand("D"), ["B", "F", "G"]);
    assert_eq!(g.expand("E"), ["G"]);
    assert_eq!(g.expand("F"), ["A", "D", "G"]);
}

#[test]
fn running_example_check_vertices() {
    let g = Graph::running_example();

    assert!(matches!(g.get_vertex("A").unwrap(), State::Start));
    assert!(matches!(g.get_vertex("E").unwrap(), State::Goal));
    assert!(matches!(g.get_vertex("D").unwrap(), State::Neutral));
}

#[test]
fn running_example_get_start_node() {
    let g = Graph::running_example();
    assert_eq!(g.get_start_node(), Some("A".to_string()));
}

#[test]
fn push_vertex_overwrites_label() {
    let mut g = Graph::new();
    g.push_vertex("A", State::Start);
    g.push_vertex("A", State::Goal);
    assert!(matches!(g.get_vertex("A").unwrap(), State::Goal));
    assert_eq!(g.get_start_node(), None);
}

#[test]
fn default_state_is_neutral() {
    assert!(matches!(State::default(), State::Neutral));
}

#[test]
fn default_graph_is_empty() {
    let g = Graph::default();
    assert_eq!(g.get_start_node(), None);
    assert_eq!(g.expand("A"), Vec::<String>::new());
}

#[test]
fn first_start_in_insertion_order_wins() {
    let mut g = Graph::new();
    g.push_vertex("B", State::Start);
    g.push_vertex("A", State::Start);
    assert_eq!(g.get_start_node(), Some("B".to_string()));
}

#[test]
fn parallel_edges_keep_first_cost() {
    let mut g = Graph::new();
    g.push_edge("A", "B", Edge(4));
    g.push_edge("A", "B", Edge(9));
    assert_eq!(g.expand("A"), ["B", "B"]);
    assert_eq!(g.get_cost_of("A", "B"), Some(4));
}

#[test]
fn is_goal_only_for_goal_labels() {
    let g = Graph::running_example();
    assert!(g.is_goal("E"));
    assert!(!g.is_goal("A"));
    assert!(!g.is_goal("D"));
    assert!(!g.is_goal("Z"));
}
