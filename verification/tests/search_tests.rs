use graph_search::engine::{bfs, dfs, run, Algorithm};
use graph_search::SearchError;
use graph_search::graph::{Edge, Graph, State};
use graph_search::tree::ParentMap;
use graph_search::ucs::{Frontier, SearchTree, UcsSolver};

#[test]
fn check_dfs_no_start() {
    let g = Graph::new();
    assert_eq!(dfs(&g).unwrap_err().message(), "No start node found")
}

#[test]
fn check_dfs_only_start() {
    let mut g = Graph::new();
    g.push_vertex("A", State::Start);
    assert_eq!(dfs(&g).unwrap_err().message(), "No path found")
}

#[test]
fn check_dfs() {
    let g = Graph::running_example();
    assert_eq!(dfs(&g).unwrap().goal, "E")
}

#[test]
fn check_bfs() {
    let g = Graph::running_example();
    assert_eq!(bfs(&g).unwrap().goal, "E")
}

#[test]
fn check_no_start() {
    let g = Graph::new();
    let mut solver = UcsSolver::new(&g);
    assert_eq!(solver.solve().unwrap_err().message(), "No start node found")
}

#[test]
fn check_only_start() {
    let mut g = Graph::new();
    g.push_vertex("A", State::Start);

    let mut solver = UcsSolver::new(&g);
    assert_eq!(solver.solve().unwrap_err().message(), "No goal found")
}

#[test]
fn check_ucs() {
    let g = Graph::running_example();
    let mut solver = UcsSolver::new(&g);

    assert_eq!(solver.solve().unwrap(), "A -> F -> G -> E");
}

#[test]
fn bfs_no_start() {
    let g = Graph::new();
    assert_eq!(bfs(&g).unwrap_err().message(), "No start node found")
}

#[test]
fn bfs_only_start() {
    let mut g = Graph::new();
    g.push_vertex("A", State::Start);
    assert_eq!(bfs(&g).unwrap_err().message(), "No path found")
}

#[test]
fn dfs_reference_path() {
    let g = Graph::running_example();
    let sol = dfs(&g).unwrap();
    assert_eq!(sol.path, ["A", "B", "D", "G", "E"]);
}

#[test]
fn bfs_reference_path() {
    let g = Graph::running_example();
    let sol = bfs(&g).unwrap();
    assert_eq!(sol.path, ["A", "F", "G", "E"]);
}

// Depth-first search is not cost-optimal: on the reference graph its path
// costs 15 while uniform-cost search finds the cheapest path at cost 14.
#[test]
fn dfs_not_cost_optimal() {
    let g = Graph::running_example();
    let dfs_path = dfs(&g).unwrap().path;
    let mut dfs_cost = 0;
    for i in 0..dfs_path.len() - 1 {
        dfs_cost += g.get_cost_of(&dfs_path[i], &dfs_path[i + 1]).unwrap();
    }
    assert_eq!(dfs_cost, 15);

    let ucs_path = ["A", "F", "G", "E"];
    let mut ucs_cost = 0;
    for i in 0..ucs_path.len() - 1 {
        ucs_cost += g.get_cost_of(ucs_path[i], ucs_path[i + 1]).unwrap();
    }
    assert_eq!(ucs_cost, 14);
    assert!(ucs_cost < dfs_cost);
}

// Breadth-first search is optimal in hop count only: its reference path
// has the fewest edges but not the least weight among paths it competes
// with; uniform-cost search agrees here by weight, not by construction.
#[test]
fn bfs_hop_optimal_reference() {
    let g = Graph::running_example();
    let sol = bfs(&g).unwrap();
    assert_eq!(sol.path.len(), 4);
}

#[test]
fn rerunning_dfs_is_deterministic() {
    let g = Graph::running_example();
    let a = dfs(&g).unwrap();
    let b = dfs(&g).unwrap();
    assert_eq!(a.goal, b.goal);
    assert_eq!(a.path, b.path);
}

#[test]
fn rerunning_bfs_is_deterministic() {
    let g = Graph::running_example();
    let a = bfs(&g).unwrap();
    let b = bfs(&g).unwrap();
    assert_eq!(a.goal, b.goal);
    assert_eq!(a.path, b.path);
}

#[test]
fn rerunning_ucs_is_deterministic() {
    let g = Graph::running_example();
    let mut s1 = UcsSolver::new(&g);
    let mut s2 = UcsSolver::new(&g);
    assert_eq!(s1.solve().unwrap(), s2.solve().unwrap());
}

// Round trip: every consecutive pair of a returned path is a real edge.
#[test]
fn dfs_path_edges_are_real() {
    let g = Graph::running_example();
    let sol = dfs(&g).unwrap();
    for i in 0..sol.path.len() - 1 {
        assert!(g.get_cost_of(&sol.path[i], &sol.path[i + 1]).is_some());
    }
}

#[test]
fn bfs_path_edges_are_real() {
    let g = Graph::running_example();
    let sol = bfs(&g).unwrap();
    for i in 0..sol.path.len() - 1 {
        assert!(g.get_cost_of(&sol.path[i], &sol.path[i + 1]).is_some());
    }
}

#[test]
fn two_node_path() {
    let mut g = Graph::new();
    g.push_vertex("S", State::Start);
    g.push_vertex("G", State::Goal);
    g.push_edge("S", "G", Edge(2));
    assert_eq!(dfs(&g).unwrap().path, ["S", "G"]);
    assert_eq!(bfs(&g).unwrap().path, ["S", "G"]);
    let mut solver = UcsSolver::new(&g);
    assert_eq!(solver.solve().unwrap(), "S -> G");
}

#[test]
fn unreachable_goal_fails_with_exhaustion() {
    let mut g = Graph::new();
    g.push_vertex("A", State::Start);
    g.push_vertex("E", State::Goal);
    g.push_edge("A", "B", Edge(1));
    // The goal exists but no edge leads to it.
    assert_eq!(dfs(&g).unwrap_err().message(), "No path found");
    assert_eq!(bfs(&g).unwrap_err().message(), "No path found");
    let mut solver = UcsSolver::new(&g);
    assert_eq!(solver.solve().unwrap_err().message(), "No goal found");
}

#[test]
fn frontier_pops_cheapest_most_recent_of_equals() {
    let mut f = Frontier::new();
    assert!(f.is_empty());
    f.push(5, "B".to_string());
    f.push(3, "C".to_string());
    f.push(5, "D".to_string());
    assert_eq!(f.pop(), Some((3, "C".to_string())));
    assert_eq!(f.pop(), Some((5, "D".to_string())));
    assert_eq!(f.pop(), Some((5, "B".to_string())));
    assert_eq!(f.pop(), None);
}

#[test]
fn parent_map_walks_back_to_start() {
    let mut t = ParentMap::new();
    t.insert("B", "A");
    t.insert("C", "B");
    assert_eq!(t.get("C"), Some("B".to_string()));
    assert_eq!(t.get("A"), None);
    assert_eq!(t.build_path("C"), ["A", "B", "C"]);
}

#[test]
fn parent_map_insert_overwrites() {
    let mut t = ParentMap::new();
    t.insert("B", "A");
    t.insert("B", "X");
    assert_eq!(t.get("B"), Some("X".to_string()));
    assert_eq!(t.len(), 1);
}

#[test]
fn search_tree_renders_path() {
    let mut t = SearchTree::new();
    t.insert((5, "B".to_string()), (0, "A".to_string()));
    t.insert((8, "C".to_string()), (5, "B".to_string()));
    assert_eq!(t.build_path((8, "C".to_string())), "A -> B -> C");
    assert_eq!(t.build_path((0, "A".to_string())), "A");
}

#[test]
fn search_tree_distinguishes_costs_of_one_vertex() {
    let mut t = SearchTree::new();
    t.insert((5, "B".to_string()), (0, "A".to_string()));
    t.insert((7, "B".to_string()), (0, "A".to_string()));
    assert_eq!(t.len(), 2);
    assert_eq!(t.get(&(5, "B".to_string())), Some((0, "A".to_string())));
    assert_eq!(t.get(&(7, "B".to_string())), Some((0, "A".to_string())));
    assert_eq!(t.get(&(6, "B".to_string())), None);
}

#[test]
fn ucs_reopens_vertex_reached_cheaper_later() {
    // D is first reached at cost 9 via C, then cheaper at total cost 4
    // via B before being finalized; the cheap route must win.
    let mut g = Graph::new();
    g.push_vertex("A", State::Start);
    g.push_vertex("E", State::Goal);
    g.push_edge("A", "C", Edge(1));
    g.push_edge("C", "D", Edge(8));
    g.push_edge("A", "B", Edge(2));
    g.push_edge("B", "D", Edge(2));
    g.push_edge("D", "E", Edge(1));
    let mut solver = UcsSolver::new(&g);
    assert_eq!(solver.solve().unwrap(), "A -> B -> D -> E");
}

#[test]
fn run_selects_algorithm() {
    let g = Graph::running_example();
    assert_eq!(run(&g, Algorithm::Dfs).unwrap(), "A -> B -> D -> G -> E");
    assert_eq!(run(&g, Algorithm::Bfs).unwrap(), "A -> F -> G -> E");
    assert_eq!(run(&g, Algorithm::Ucs).unwrap(), "A -> F -> G -> E");
}

#[test]
fn run_reports_failures() {
    let g = Graph::new();
    assert_eq!(run(&g, Algorithm::Dfs).unwrap_err().message(), "No start node found");
    let mut h = Graph::new();
    h.push_vertex("A", State::Start);
    assert_eq!(run(&h, Algorithm::Bfs).unwrap_err().message(), "No path found");
    assert_eq!(run(&h, Algorithm::Ucs).unwrap_err().message(), "No goal found");
}

#[test]
fn parent_map_items_in_insertion_order() {
    let mut t = ParentMap::new();
    t.insert("B", "A");
    t.insert("C", "B");
    t.insert("B", "X");
    // One pair per recorded vertex; an overwrite keeps the position.
    assert_eq!(
        t.items(),
        [
            ("B".to_string(), "X".to_string()),
            ("C".to_string(), "B".to_string()),
        ]
    );
}

#[test]
fn search_tree_items_in_insertion_order() {
    let mut t = SearchTree::new();
    t.insert((5, "B".to_string()), (0, "A".to_string()));
    t.insert((8, "C".to_string()), (5, "B".to_string()));
    t.insert((5, "B".to_string()), (0, "Z".to_string()));
    assert_eq!(
        t.items(),
        [
            ((5, "B".to_string()), (0, "Z".to_string())),
            ((8, "C".to_string()), (5, "B".to_string())),
        ]
    );
}

#[test]
fn solver_still_fresh_after_no_start() {
    let g = Graph::new();
    let mut solver = UcsSolver::new(&g);
    assert!(solver.solve().is_err());
    // The failed run never touched the solver: a second run fails the same way.
    assert_eq!(solver.solve().unwrap_err().message(), "No start node found");
}

#[test]
fn error_messages() {
    assert_eq!(SearchError::NoStartNode.message(), "No start node found");
    assert_eq!(SearchError::NoPathFound.message(), "No path found");
    assert_eq!(SearchError::NoGoalFound.message(), "No goal found");
}
