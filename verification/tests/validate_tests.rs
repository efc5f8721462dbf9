use graph_visualizer::graph::Graph;
use graph_visualizer::highlight::edge_path_to_nodes;
use graph_visualizer::solver::longest_path;
use graph_visualizer::store::read_graph;
use graph_visualizer::validate::{parse_path, ParsePathError};

fn lines(ls: &[&str]) -> Vec<String> {
    ls.iter().map(|s| s.to_string()).collect()
}

fn req(ls: &[&str]) -> Vec<String> {
    ls.iter().map(|s| s.to_string()).collect()
}

fn chain_graph() -> Graph {
    read_graph(&lines(&["3 2", "A B 1.0", "B C 2.0"]), false).unwrap()
}

#[test]
fn duplicate_vertex_is_rejected() {
    let g = chain_graph();
    let r = parse_path(&req(&["A", "B", "A"]), &g);
    assert_eq!(r.unwrap_err(), ParsePathError::DuplicateVertex("A".to_string()));
}

#[test]
fn nonexistent_edge_is_rejected() {
    let g = chain_graph();
    let r = parse_path(&req(&["A", "C"]), &g);
    assert_eq!(
        r.unwrap_err(),
        ParsePathError::NonexistentEdge("A".to_string(), "C".to_string())
    );
}

#[test]
fn unknown_vertex_is_rejected() {
    let g = chain_graph();
    let r = parse_path(&req(&["A", "Z"]), &g);
    assert_eq!(r.unwrap_err(), ParsePathError::InvalidVertex("Z".to_string()));
}

#[test]
fn short_requests_are_rejected() {
    let g = chain_graph();
    assert_eq!(
        parse_path(&req(&["A"]), &g).unwrap_err(),
        ParsePathError::EmptyPath(1)
    );
    assert_eq!(parse_path(&req(&[]), &g).unwrap_err(), ParsePathError::EmptyPath(0));
}

#[test]
fn first_violation_wins() {
    let g = chain_graph();
    // the unknown label at position 1 is found before the repeat at position 2
    let r = parse_path(&req(&["A", "Z", "A"]), &g);
    assert_eq!(r.unwrap_err(), ParsePathError::InvalidVertex("Z".to_string()));
}

#[test]
fn valid_request_yields_edge_ids() {
    let g = chain_graph();
    assert_eq!(parse_path(&req(&["A", "B", "C"]), &g).unwrap(), vec![0, 1]);
}

#[test]
fn undirected_edges_validate_backwards() {
    let g = chain_graph();
    assert_eq!(parse_path(&req(&["C", "B"]), &g).unwrap(), vec![1]);
}

#[test]
fn directed_edges_do_not_validate_backwards() {
    let g = read_graph(&lines(&["2 1", "A B 1.0"]), true).unwrap();
    let r = parse_path(&req(&["B", "A"]), &g);
    assert_eq!(
        r.unwrap_err(),
        ParsePathError::NonexistentEdge("B".to_string(), "A".to_string())
    );
}

#[test]
fn solver_result_validates_back_to_itself() {
    for (text, directed) in [
        (vec!["3 2", "A B 1.0", "B C 2.0"], false),
        (vec!["4 4", "A B 1.5", "B C 2.0", "C D 0.5", "D A 1.0"], false),
        (vec!["3 3", "A B 1.0", "B C 1.0", "C A 1.0"], true),
    ] {
        let g = read_graph(&lines(&text), directed).unwrap();
        let (path, _) = longest_path(&g);
        assert!(!path.is_empty());
        let labels: Vec<String> =
            edge_path_to_nodes(&path, &g).iter().map(|v| g.labels[*v].clone()).collect();
        let validated = parse_path(&labels, &g).unwrap();
        assert_eq!(validated, path);
    }
}
