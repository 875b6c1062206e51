use rsomics_eigenvector_centrality::parse_edgelist;

/// Verify comment and blank line skipping in the parser.
#[test]
fn parser_skips_comments_and_blanks() {
    let input = "# header\n\n0 1\n# comment\n1 2\n\n";
    let g = parse_edgelist(input);
    assert_eq!(g.node_count(), 3);
}

/// The node count of the random G(20, 50) edge list of the centrality suite.
#[test]
fn random_g20_50_node_count() {
    let edgelist = "\
0 2\n0 3\n0 8\n0 17\n\
1 7\n1 8\n1 10\n1 13\n\
2 6\n2 8\n2 9\n2 12\n2 17\n2 18\n\
3 7\n3 10\n3 11\n3 12\n3 17\n\
4 6\n4 7\n4 8\n4 14\n\
5 11\n5 13\n5 14\n5 19\n\
6 7\n6 10\n6 11\n6 17\n6 18\n\
7 8\n7 11\n7 13\n7 17\n\
8 10\n8 12\n8 17\n\
9 19\n\
10 12\n\
11 14\n11 18\n11 19\n\
12 15\n12 18\n\
13 18\n\
14 17\n14 18\n\
16 19\n";
    let g = parse_edgelist(edgelist);
    assert_eq!(g.node_count(), 20);
    let names: Vec<&str> = g.node_names().iter().map(|s| s.as_str()).collect();
    // ids follow the order of first appearance in the text
    assert_eq!(
        names,
        vec![
            "0", "2", "3", "8", "17", "1", "7", "10", "13", "6", "9", "12", "18", "11", "4", "14",
            "5", "19", "15", "16"
        ]
    );
    // the neighbours of "2", in the order the lines list them
    let two = names.iter().position(|n| *n == "2").unwrap();
    let nbrs: Vec<&str> = g.neighbors(two).iter().map(|&i| names[i]).collect();
    assert_eq!(nbrs, vec!["0", "6", "8", "9", "12", "17", "18"]);
}
