use graph_visualizer::graph::Graph;
use graph_visualizer::highlight::edge_path_to_nodes;
use graph_visualizer::solver::{longest_from_start, longest_path, reduce_results};
use graph_visualizer::store::read_graph;
use graph_visualizer::validate::{parse_path, ParsePathError};

fn lines(ls: &[&str]) -> Vec<String> {
    ls.iter().map(|s| s.to_string()).collect()
}

fn path_labels(g: &Graph, path: &Vec<usize>) -> Vec<String> {
    edge_path_to_nodes(path, g).iter().map(|v| g.labels[*v].clone()).collect()
}

#[test]
fn example_chain_longest_path() {
    let g = read_graph(&lines(&["3 2", "A B 1.0", "B C 2.0"]), false).unwrap();
    let (path, weight) = longest_path(&g);
    assert_eq!(weight, 3000);
    assert_eq!(path_labels(&g, &path), vec!["A", "B", "C"]);
}

#[test]
fn single_isolated_vertex() {
    let g = Graph { labels: vec!["X".to_string()], edges: vec![], directed: false };
    let (path, weight) = longest_path(&g);
    assert_eq!(weight, 0);
    assert!(path.is_empty());
    let r = parse_path(&vec!["X".to_string()], &g);
    assert_eq!(r.unwrap_err(), ParsePathError::EmptyPath(1));
}

#[test]
fn negative_edge_is_not_forced() {
    let g = read_graph(&lines(&["3 2", "A B -1.0", "B C 2.0"]), false).unwrap();
    let (path, weight) = longest_path(&g);
    assert_eq!(weight, 2000);
    assert_eq!(path_labels(&g, &path), vec!["B", "C"]);
}

#[test]
fn all_negative_edges_give_empty_path() {
    let g = read_graph(&lines(&["2 1", "A B -1.0"]), false).unwrap();
    let (path, weight) = longest_path(&g);
    assert_eq!(weight, 0);
    assert!(path.is_empty());
}

#[test]
fn directed_edges_are_one_way() {
    let g = read_graph(&lines(&["2 1", "B A 1.0"]), true).unwrap();
    let (path, weight) = longest_path(&g);
    assert_eq!(weight, 1000);
    assert_eq!(path_labels(&g, &path), vec!["B", "A"]);
}

#[test]
fn reduction_matches_sequential_scan() {
    for (text, directed) in [
        (vec!["3 2", "A B 1.0", "B C 2.0"], false),
        (vec!["3 2", "A B -1.0", "B C 2.0"], false),
        (vec!["4 4", "A B 1.5", "B C 2.0", "C D 0.5", "D A 1.0"], false),
        (vec!["3 3", "A B 1.0", "B C 1.0", "C A 1.0"], true),
    ] {
        let g = read_graph(&lines(&text), directed).unwrap();
        let mut results: Vec<(Vec<usize>, i64)> = Vec::new();
        for s in 0..g.labels.len() {
            results.push(longest_from_start(&g, s));
        }
        let reduced = reduce_results(&results);
        let sequential = longest_path(&g);
        assert_eq!(reduced.1, sequential.1);
        assert_eq!(reduced.0, sequential.0);
    }
}

#[test]
fn longest_weight_dominates_any_valid_path() {
    let g = read_graph(&lines(&["4 4", "A B 1.5", "B C 2.0", "C D 0.5", "D A 1.0"]), false)
        .unwrap();
    let (_, best) = longest_path(&g);
    for req in [vec!["A", "B"], vec!["A", "B", "C"], vec!["D", "A", "B", "C"]] {
        let req: Vec<String> = req.iter().map(|s| s.to_string()).collect();
        let edges = parse_path(&req, &g).unwrap();
        let w: i64 = edges.iter().map(|e| g.edges[*e].weight).sum();
        assert!(best >= w);
    }
}

#[test]
fn tie_keeps_lowest_start_vertex() {
    let g = read_graph(&lines(&["3 2", "A B 1.0", "B C 1.0"]), false).unwrap();
    let (path, weight) = longest_path(&g);
    assert_eq!(weight, 2000);
    assert_eq!(path_labels(&g, &path), vec!["A", "B", "C"]);
}

#[test]
fn undirected_search_walks_edges_backwards() {
    let g = read_graph(&lines(&["3 2", "B A 1.0", "C B 2.0"]), false).unwrap();
    let (path, weight) = longest_path(&g);
    assert_eq!(weight, 3000);
    assert_eq!(path_labels(&g, &path), vec!["A", "B", "C"]);
}

#[test]
fn self_loop_is_never_taken() {
    let g = read_graph(&lines(&["1 1", "A A 5.0"]), false).unwrap();
    let (path, weight) = longest_path(&g);
    assert_eq!(weight, 0);
    assert!(path.is_empty());
}
