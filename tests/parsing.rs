use ara::{build_plane_graph_from_file, parse_edges, parse_output, GraphError};

#[test]
fn blank_lines_in_solver_output_are_skipped() {
    let r = parse_output("0 0\n\n1 0\n0 1\n").unwrap();
    assert_eq!(r, vec![(0, 0), (1, 0), (0, 1)]);
}

#[test]
fn malformed_edge_line_fails_without_partial_result() {
    assert_eq!(parse_edges("3 3\n1 2\nfoo bar\n"), Err(GraphError::Format));
}

#[test]
fn edge_header_is_discarded_whatever_it_holds() {
    assert_eq!(parse_edges("not a header\n1 2\n2 3\n").unwrap(), vec![(1, 2), (2, 3)]);
    assert_eq!(parse_edges("3 3\n1 2\n2 3\n3 1\n").unwrap(), vec![(1, 2), (2, 3), (3, 1)]);
}

#[test]
fn empty_texts_give_no_pairs() {
    assert_eq!(parse_edges("").unwrap(), vec![]);
    assert_eq!(parse_edges("3 0").unwrap(), vec![]);
    assert_eq!(parse_output("").unwrap(), vec![]);
    assert_eq!(parse_output("\n\n").unwrap(), vec![]);
}

#[test]
fn edge_list_blank_lines_are_skipped() {
    assert_eq!(parse_edges("2 1\n\n1 2\n\n").unwrap(), vec![(1, 2)]);
}

#[test]
fn wrong_token_counts_are_format_errors() {
    assert_eq!(parse_output("1\n"), Err(GraphError::Format));
    assert_eq!(parse_output("1 2 3\n"), Err(GraphError::Format));
    assert_eq!(parse_edges("h\n1 2\n4\n"), Err(GraphError::Format));
}

#[test]
fn non_numeric_tokens_are_format_errors() {
    assert_eq!(parse_output("-1 2\n"), Err(GraphError::Format));
    assert_eq!(parse_output("1 2x\n"), Err(GraphError::Format));
    assert_eq!(parse_output("1.5 2\n"), Err(GraphError::Format));
}

#[test]
fn largest_u32_parses_and_one_more_fails() {
    assert_eq!(parse_output("4294967295 0\n").unwrap(), vec![(4294967295, 0)]);
    assert_eq!(parse_output("4294967296 0\n"), Err(GraphError::Format));
    assert_eq!(parse_output("0 99999999999999999999\n"), Err(GraphError::Format));
}

#[test]
fn whitespace_around_and_between_numbers_is_accepted() {
    assert_eq!(parse_output("  7\t 8  \r\n").unwrap(), vec![(7, 8)]);
    assert_eq!(parse_output("1 2\r\n3 4\r\n").unwrap(), vec![(1, 2), (3, 4)]);
    assert_eq!(parse_output("007 10").unwrap(), vec![(7, 10)]);
}

#[test]
fn formatted_coordinates_read_back_unchanged() {
    let coords: Vec<(u32, u32)> = vec![(0, 0), (12, 3), (4294967295, 40), (7, 100000)];
    let mut text = String::new();
    for (x, y) in &coords {
        text.push_str(&format!("{} {}\n", x, y));
    }
    assert_eq!(parse_output(&text).unwrap(), coords);
}

#[test]
fn build_graph_from_edge_list_and_solver_output() {
    let g = build_plane_graph_from_file("3 3\n1 2\n2 3\n3 1\n", "0 0\n0 1\n1 0\n").unwrap();
    assert_eq!(g.n, 3);
    assert_eq!(g.edges, vec![(1, 2), (2, 3), (3, 1)]);
    assert_eq!(g.embedding, vec![(0, 0), (0, 1), (1, 0)]);
}

#[test]
fn build_graph_reports_each_error() {
    assert_eq!(
        build_plane_graph_from_file("3 3\n1 x\n", "0 0\n0 1\n1 0\n").unwrap_err(),
        GraphError::Format
    );
    assert_eq!(
        build_plane_graph_from_file("3 3\n1 2\n", "0 0\nsegfault\n").unwrap_err(),
        GraphError::ExternalProcess
    );
    assert_eq!(
        build_plane_graph_from_file("3 3\n1 4\n", "0 0\n0 1\n1 0\n").unwrap_err(),
        GraphError::Index
    );
    assert_eq!(
        build_plane_graph_from_file("3 3\n0 1\n", "0 0\n0 1\n1 0\n").unwrap_err(),
        GraphError::Index
    );
}

#[test]
fn error_messages_are_distinct() {
    let all = [
        GraphError::Format,
        GraphError::Index,
        GraphError::DegenerateGeometry,
        GraphError::ExternalProcess,
        GraphError::TooManyVertices,
    ];
    for (i, a) in all.iter().enumerate() {
        assert!(!a.message().is_empty());
        for b in all.iter().skip(i + 1) {
            assert_ne!(a.message(), b.message());
        }
    }
}

#[test]
fn whitespace_only_line_in_solver_output_is_a_format_error() {
    assert_eq!(parse_output("  \n"), Err(GraphError::Format));
    assert_eq!(parse_output("0 0\n\t\n1 1\n"), Err(GraphError::Format));
    assert_eq!(parse_output("0 0\n\r\n"), Err(GraphError::Format));
}

#[test]
fn whitespace_only_line_in_edge_list_is_a_format_error() {
    assert_eq!(parse_edges("3 3\n1 2\n   \n"), Err(GraphError::Format));
    assert_eq!(parse_edges("3 3\n\t\n1 2\n"), Err(GraphError::Format));
    assert_eq!(parse_edges("   \n1 2\n").unwrap(), vec![(1, 2)]);
}

#[test]
fn one_leading_plus_is_accepted() {
    assert_eq!(parse_output("+1 2\n").unwrap(), vec![(1, 2)]);
    assert_eq!(parse_edges("h\n+3 +4\n").unwrap(), vec![(3, 4)]);
    assert_eq!(parse_output("+4294967295 0\n").unwrap(), vec![(4294967295, 0)]);
}

#[test]
fn other_signs_are_format_errors() {
    assert_eq!(parse_output("+ 1\n"), Err(GraphError::Format));
    assert_eq!(parse_output("++1 2\n"), Err(GraphError::Format));
    assert_eq!(parse_output("1+ 2\n"), Err(GraphError::Format));
    assert_eq!(parse_output("-0 2\n"), Err(GraphError::Format));
    assert_eq!(parse_output("+4294967296 0\n"), Err(GraphError::Format));
}

#[test]
fn vertical_tab_and_form_feed_separate_numbers() {
    assert_eq!(parse_output("5\x0b6\n7\x0c8\n").unwrap(), vec![(5, 6), (7, 8)]);
}
