use graph_visualizer::highlight::{edge_path_to_nodes, path_highlighter};
use graph_visualizer::store::read_graph;

fn lines(ls: &[&str]) -> Vec<String> {
    ls.iter().map(|s| s.to_string()).collect()
}

#[test]
fn highlighter_marks_path_members() {
    let g = read_graph(&lines(&["3 2", "A B 1.0", "B C 2.0"]), false).unwrap();
    let hl = path_highlighter(&vec![0], &g);
    assert_eq!(hl.edge_marks, vec![true, false]);
    assert_eq!(hl.node_marks, vec![true, true, false]);
    assert_eq!(hl.node_color(0), "#0000ff");
    assert_eq!(hl.node_color(2), "#000000");
    assert_eq!(hl.edge_color(0), "#0000ff");
    assert_eq!(hl.edge_color(1), "#000000");
}

#[test]
fn highlighter_with_empty_path_marks_nothing() {
    let g = read_graph(&lines(&["3 2", "A B 1.0", "B C 2.0"]), false).unwrap();
    let hl = path_highlighter(&vec![], &g);
    assert_eq!(hl.edge_marks, vec![false, false]);
    assert_eq!(hl.node_marks, vec![false, false, false]);
}

#[test]
fn single_edge_walks_in_stored_orientation() {
    let g = read_graph(&lines(&["3 2", "A B 1.0", "B C 2.0"]), false).unwrap();
    assert_eq!(edge_path_to_nodes(&vec![1], &g), vec![1, 2]);
}

#[test]
fn multi_edge_walk_detects_start() {
    let g = read_graph(&lines(&["3 2", "A B 1.0", "B C 2.0"]), false).unwrap();
    assert_eq!(edge_path_to_nodes(&vec![0, 1], &g), vec![0, 1, 2]);
    assert_eq!(edge_path_to_nodes(&vec![1, 0], &g), vec![2, 1, 0]);
}

#[test]
fn empty_path_walks_nowhere() {
    let g = read_graph(&lines(&["3 2", "A B 1.0", "B C 2.0"]), false).unwrap();
    assert!(edge_path_to_nodes(&vec![], &g).is_empty());
}
