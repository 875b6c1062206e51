use rsomics_eigenvector_centrality::{ids_by_label, parse_edgelist, EigenvectorError, Graph};

fn names(g: &Graph) -> Vec<String> {
    g.node_names().to_vec()
}

fn adjacency(g: &Graph) -> Vec<Vec<usize>> {
    (0..g.node_count()).map(|i| g.neighbors(i).to_vec()).collect()
}

#[test]
fn new_graph_is_empty() {
    let g = Graph::new();
    assert_eq!(g.node_count(), 0);
    assert!(g.node_names().is_empty());
    let d = Graph::default();
    assert_eq!(d.node_count(), 0);
}

#[test]
fn add_edge_interns_in_order_of_first_appearance() {
    let mut g = Graph::new();
    g.add_edge("b", "a");
    g.add_edge("a", "c");
    assert_eq!(names(&g), vec!["b", "a", "c"]);
    assert_eq!(adjacency(&g), vec![vec![1], vec![0, 2], vec![1]]);
}

#[test]
fn parallel_edges_stored_once() {
    let g1 = parse_edgelist("0 1\n0 1\n1 2\n");
    let g2 = parse_edgelist("0 1\n1 2\n");
    assert_eq!(names(&g1), names(&g2));
    assert_eq!(adjacency(&g1), adjacency(&g2));
    // the reverse direction is the same undirected edge
    let g3 = parse_edgelist("0 1\n1 0\n1 2\n");
    assert_eq!(adjacency(&g3), adjacency(&g2));
}

#[test]
fn self_loop_is_its_own_neighbour_once() {
    let g1 = parse_edgelist("0 1\n0 2\n0 0\n0 0\n");
    let g2 = parse_edgelist("0 1\n0 2\n0 0\n");
    assert_eq!(adjacency(&g2), vec![vec![1, 2, 0], vec![0], vec![0]]);
    assert_eq!(adjacency(&g1), adjacency(&g2));
    let leaf = parse_edgelist("0 1\n1 2\n2 2\n");
    assert_eq!(adjacency(&leaf), vec![vec![1], vec![0, 2], vec![1, 2]]);
}

#[test]
fn lone_self_loop_makes_a_node() {
    let mut g = Graph::new();
    g.add_edge("x", "x");
    assert_eq!(names(&g), vec!["x"]);
    assert_eq!(adjacency(&g), vec![vec![0]]);
}

#[test]
fn parser_whitespace_and_extra_words() {
    // tabs, several spaces, CRLF endings, a third word, no final newline
    let g = parse_edgelist("  a\t b  \r\nb   c extra words\r\nc a");
    assert_eq!(names(&g), vec!["a", "b", "c"]);
    assert_eq!(adjacency(&g), vec![vec![1, 2], vec![0, 2], vec![1, 0]]);
}

#[test]
fn parser_unicode_whitespace_separates_words() {
    // U+3000 IDEOGRAPHIC SPACE and U+00A0 NO-BREAK SPACE are whitespace
    let g = parse_edgelist("α\u{3000}β\nβ\u{a0}γ\n");
    assert_eq!(names(&g), vec!["α", "β", "γ"]);
    assert_eq!(adjacency(&g), vec![vec![1], vec![0, 2], vec![1]]);
}

#[test]
fn parser_skips_short_lines_and_indented_comments() {
    let g = parse_edgelist("lonely\n   # 1 2\n\t\n#x y\n1 2 # trailing\n");
    assert_eq!(names(&g), vec!["1", "2"]);
    assert_eq!(adjacency(&g), vec![vec![1], vec![0]]);
}

#[test]
fn hash_inside_a_label_is_not_a_comment() {
    let g = parse_edgelist("a#b c\nc #d\n");
    assert_eq!(names(&g), vec!["a#b", "c", "#d"]);
    assert_eq!(adjacency(&g), vec![vec![1], vec![0, 2], vec![1]]);
}

#[test]
fn empty_text_gives_empty_graph() {
    assert_eq!(parse_edgelist("").node_count(), 0);
    assert_eq!(parse_edgelist("\n\n# only comments\n").node_count(), 0);
}

#[test]
fn error_variants() {
    let e = EigenvectorError::FailedConvergence { max_iter: 7 };
    assert_eq!(e, EigenvectorError::FailedConvergence { max_iter: 7 });
    assert_ne!(e, EigenvectorError::EmptyGraph);
}

#[test]
fn parser_whitespace_is_unicode_white_space() {
    // vertical tab, form feed and NEL separate words; U+001F does not
    let g = parse_edgelist("a\u{0b}b\u{0c}c\nb\u{85}d\ne\u{1f}f a\n");
    assert_eq!(names(&g), vec!["a", "b", "d", "e\u{1f}f"]);
    assert_eq!(adjacency(&g), vec![vec![1, 3], vec![0, 2], vec![1], vec![0]]);
}

#[test]
fn joined_texts_parse_line_by_line() {
    let joined = parse_edgelist("x y\ny z\n# note\nz x");
    let mut g = parse_edgelist("x y\ny z");
    g.add_edge("z", "x");
    assert_eq!(names(&joined), names(&g));
    assert_eq!(adjacency(&joined), adjacency(&g));
    assert_eq!(adjacency(&g), vec![vec![1, 2], vec![0, 2], vec![1, 0]]);
}

#[test]
fn error_messages() {
    assert_eq!(
        EigenvectorError::EmptyGraph.message(),
        "cannot compute centrality for the null graph"
    );
    assert_eq!(
        EigenvectorError::FailedConvergence { max_iter: 100 }.message(),
        "power iteration failed to converge within 100 iterations"
    );
    assert_eq!(
        EigenvectorError::FailedConvergence { max_iter: 0 }.message(),
        "power iteration failed to converge within 0 iterations"
    );
    assert_eq!(
        EigenvectorError::FailedConvergence { max_iter: usize::MAX }.message(),
        format!("power iteration failed to converge within {} iterations", usize::MAX)
    );
}

fn labels_in_order(g: &Graph) -> Vec<String> {
    let names = g.node_names();
    ids_by_label(g).into_iter().map(|i| names[i].clone()).collect()
}

#[test]
fn ids_by_label_sorts_as_str_order() {
    // numeric labels sort as strings, as the report lists them
    let g = parse_edgelist("0 2\n10 1\n2 19\n9 10\n");
    assert_eq!(labels_in_order(&g), vec!["0", "1", "10", "19", "2", "9"]);
    let mut expected: Vec<String> = names(&g);
    expected.sort();
    assert_eq!(labels_in_order(&g), expected);
}

#[test]
fn ids_by_label_prefix_and_unicode() {
    // a proper prefix first; uppercase before lowercase; by scalar value beyond ASCII
    let g = parse_edgelist("ab a\nB é\nz aa\n");
    assert_eq!(labels_in_order(&g), vec!["B", "a", "aa", "ab", "z", "é"]);
    assert_eq!(ids_by_label(&Graph::new()), Vec::<usize>::new());
}
