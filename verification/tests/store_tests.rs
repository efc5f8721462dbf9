use graph_visualizer::fmt::weight_to_text;
use graph_visualizer::store::{read_graph, Field, GraphParseError};
use graph_visualizer::text::{parse_count, parse_weight, tokenize};

fn lines(ls: &[&str]) -> Vec<String> {
    ls.iter().map(|s| s.to_string()).collect()
}

#[test]
fn builds_simple_graph() {
    let g = read_graph(&lines(&["3 2", "A B 1.0", "B C 2.0"]), false).unwrap();
    assert_eq!(g.labels, vec!["A".to_string(), "B".to_string(), "C".to_string()]);
    assert_eq!(g.edges.len(), 2);
    assert_eq!((g.edges[0].source, g.edges[0].target, g.edges[0].weight), (0, 1, 1000));
    assert_eq!((g.edges[1].source, g.edges[1].target, g.edges[1].weight), (1, 2, 2000));
    assert!(!g.directed);
}

#[test]
fn ids_follow_first_occurrence() {
    let g = read_graph(&lines(&["3 3", "B A 1.0", "A C 1.0", "C B 1.0"]), false).unwrap();
    assert_eq!(g.labels, vec!["B".to_string(), "A".to_string(), "C".to_string()]);
    assert_eq!((g.edges[0].source, g.edges[0].target), (0, 1));
    assert_eq!((g.edges[1].source, g.edges[1].target), (1, 2));
    assert_eq!((g.edges[2].source, g.edges[2].target), (2, 0));
}

#[test]
fn rebuilding_gives_identical_ids() {
    let text = lines(&["3 3", "B A 1.0", "A C 1.0", "C B 1.0"]);
    let g1 = read_graph(&text, false).unwrap();
    let g2 = read_graph(&text, false).unwrap();
    assert_eq!(g1.labels, g2.labels);
    assert_eq!(g1.edges.len(), g2.edges.len());
    for (e1, e2) in g1.edges.iter().zip(g2.edges.iter()) {
        assert_eq!((e1.source, e1.target, e1.weight), (e2.source, e2.target, e2.weight));
    }
}

#[test]
fn repeated_label_keeps_one_id() {
    let g = read_graph(&lines(&["2 2", "A A 1.0", "A B 2.0"]), false).unwrap();
    assert_eq!(g.labels, vec!["A".to_string(), "B".to_string()]);
    assert_eq!((g.edges[0].source, g.edges[0].target), (0, 0));
    assert_eq!((g.edges[1].source, g.edges[1].target), (0, 1));
}

#[test]
fn missing_second_vertex() {
    let r = read_graph(&lines(&["1 1", "A"]), false);
    assert_eq!(r.unwrap_err(), GraphParseError::MissingField(Field::VertexB));
}

#[test]
fn missing_weight_token() {
    let r = read_graph(&lines(&["1 1", "A B"]), false);
    assert_eq!(r.unwrap_err(), GraphParseError::MissingField(Field::Weight));
}

#[test]
fn invalid_weight_token() {
    let r = read_graph(&lines(&["1 1", "A B x"]), false);
    assert_eq!(r.unwrap_err(), GraphParseError::InvalidValue("x".to_string()));
}

#[test]
fn empty_input_misses_header() {
    let r = read_graph(&lines(&[]), false);
    assert_eq!(r.unwrap_err(), GraphParseError::MissingField(Field::VertexCount));
    let r2 = read_graph(&lines(&["   ", ""]), false);
    assert_eq!(r2.unwrap_err(), GraphParseError::MissingField(Field::VertexCount));
}

#[test]
fn header_with_one_token() {
    let r = read_graph(&lines(&["5"]), false);
    assert_eq!(r.unwrap_err(), GraphParseError::MissingField(Field::EdgeCount));
}

#[test]
fn header_with_bad_count() {
    let r = read_graph(&lines(&["x 1"]), false);
    assert_eq!(r.unwrap_err(), GraphParseError::InvalidValue("x".to_string()));
}

#[test]
fn header_skips_blank_lines() {
    let g = read_graph(&lines(&["", "  \t", "2 1", "A B 2.5"]), false).unwrap();
    assert_eq!(g.labels.len(), 2);
    assert_eq!(g.edges[0].weight, 2500);
}

#[test]
fn extra_tokens_are_ignored() {
    let g = read_graph(&lines(&["2 1 junk", "A B 1.0 junk"]), false).unwrap();
    assert_eq!(g.edges[0].weight, 1000);
}

#[test]
fn fewer_edge_lines_than_announced() {
    let g = read_graph(&lines(&["3 5", "A B 1.0"]), false).unwrap();
    assert_eq!(g.edges.len(), 1);
}

#[test]
fn weight_grammar() {
    assert_eq!(parse_weight("1.0"), Some(1000));
    assert_eq!(parse_weight("2.5"), Some(2500));
    assert_eq!(parse_weight("-2.5"), Some(-2500));
    assert_eq!(parse_weight("+3"), Some(3000));
    assert_eq!(parse_weight("3"), Some(3000));
    assert_eq!(parse_weight(".5"), Some(500));
    assert_eq!(parse_weight("5."), Some(5000));
    assert_eq!(parse_weight("0.125"), Some(125));
    assert_eq!(parse_weight(""), None);
    assert_eq!(parse_weight("."), None);
    assert_eq!(parse_weight("1.2345"), None);
    assert_eq!(parse_weight("1e5"), None);
    assert_eq!(parse_weight("--1"), None);
}

#[test]
fn count_grammar() {
    assert_eq!(parse_count("10"), Some(10));
    assert_eq!(parse_count("0007"), Some(7));
    assert_eq!(parse_count(""), None);
    assert_eq!(parse_count("1x"), None);
    assert_eq!(parse_count("1000000001"), None);
}

#[test]
fn tokenizer_splits_on_whitespace() {
    let toks = tokenize("  a \t bb\tc ");
    assert_eq!(toks, vec!["a".to_string(), "bb".to_string(), "c".to_string()]);
    assert!(tokenize("   ").is_empty());
}

#[test]
fn weight_total_over_capacity_is_refused() {
    // each edge weighs about 1e15 in thousandths; ~9224 of them exceed i64::MAX
    let mut text = vec!["2 9300".to_string()];
    for _ in 0..9300 {
        text.push("A B 999999999999".to_string());
    }
    let r = read_graph(&text, false);
    assert_eq!(
        r.unwrap_err(),
        GraphParseError::InvalidValue("999999999999".to_string())
    );
}

#[test]
fn weight_rendering() {
    assert_eq!(weight_to_text(3000), "3");
    assert_eq!(weight_to_text(0), "0");
    assert_eq!(weight_to_text(2500), "2.5");
    assert_eq!(weight_to_text(-2500), "-2.5");
    assert_eq!(weight_to_text(125), "0.125");
    assert_eq!(weight_to_text(100), "0.1");
    assert_eq!(weight_to_text(1010), "1.01");
    assert_eq!(weight_to_text(123456789), "123456.789");
}

#[test]
fn weight_rendering_parses_back() {
    for w in [0i64, 1, -1, 999, 1000, -1000, 2500, 123456789, -987654321] {
        let text = weight_to_text(w);
        assert_eq!(parse_weight(&text), Some(w));
    }
}
