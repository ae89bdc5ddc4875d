use graph_distance::edge_list::{read_edge_list, parse_edge_line, parse_edge_list};
use graph_distance::error::EstimateError;

fn lines(text: &[&str]) -> Vec<String> {
    text.iter().map(|s| s.to_string()).collect()
}

#[test]
fn parse_edge_line_reads_two_numbers() {
    assert_eq!(parse_edge_line("1,2"), Some((1, 2)));
    assert_eq!(parse_edge_line("0,0"), Some((0, 0)));
    assert_eq!(parse_edge_line("14113,14112"), Some((14113, 14112)));
    assert_eq!(parse_edge_line("007,+8"), Some((7, 8)));
}

#[test]
fn parse_edge_line_trims_the_line() {
    assert_eq!(parse_edge_line("  3,4\t"), Some((3, 4)));
    assert_eq!(parse_edge_line("3,4\r"), Some((3, 4)));
    assert_eq!(parse_edge_line("\u{a0}3,4\u{3000}\u{2003}"), Some((3, 4)));
}

#[test]
fn parse_edge_line_agrees_with_the_standard_library() {
    let samples = [
        "1,2", " 1,2 ", "1, 2", "1 ,2", "+1,+2", "-1,2", "1,-2", "++1,2", "+,2", ",", "1,", ",2",
        "", "   ", "1", "1,2,3", "a,b", "1;2", "1,2x", "١,٢", "1\u{a0},2", "\u{85}5,6\u{2028}",
        "18446744073709551615,0", "18446744073709551616,0", "4294967295,4294967296",
        "99999999999999999999999999,1", "000000000000000000000000000001,2", "1,,2",
    ];
    for text in samples {
        let parts: Vec<&str> = text.trim().split(',').collect();
        let expected = if parts.len() == 2 {
            match (parts[0].parse::<usize>(), parts[1].parse::<usize>()) {
                (Ok(a), Ok(b)) => Some((a, b)),
                _ => None,
            }
        } else {
            None
        };
        assert_eq!(parse_edge_line(text), expected, "on {:?}", text);
    }
}

#[test]
fn parse_edge_line_refuses_other_forms() {
    assert_eq!(parse_edge_line(""), None);
    assert_eq!(parse_edge_line("12"), None);
    assert_eq!(parse_edge_line("1,2,3"), None);
    assert_eq!(parse_edge_line("1, 2"), None);
    assert_eq!(parse_edge_line("u,v"), None);
    assert_eq!(parse_edge_line("-1,2"), None);
    assert_eq!(parse_edge_line("1.5,2"), None);
    assert_eq!(parse_edge_line("340282366920938463463374607431768211456,1"), None);
}

#[test]
fn parse_edge_list_passes_over_the_header() {
    let edges = parse_edge_list(&lines(&["0,1", "1,2", "2,3"])).unwrap();
    assert_eq!(edges, vec![(1, 2), (2, 3)]);
    let edges = parse_edge_list(&lines(&["node_1,node_2", "5,6"])).unwrap();
    assert_eq!(edges, vec![(5, 6)]);
}

#[test]
fn parse_edge_list_passes_over_malformed_lines() {
    let text = lines(&["header", "1,2", "", "not an edge", "3,4,5", " 6,7 ", "8, 9", "10,11"]);
    assert_eq!(parse_edge_list(&text).unwrap(), vec![(1, 2), (6, 7), (10, 11)]);
}

#[test]
fn parse_edge_list_without_edges_is_empty_input() {
    assert_eq!(parse_edge_list(&Vec::new()), Err(EstimateError::EmptyInput));
    assert_eq!(parse_edge_list(&lines(&["1,2"])), Err(EstimateError::EmptyInput));
    assert_eq!(parse_edge_list(&lines(&["u,v", "x", ""])), Err(EstimateError::EmptyInput));
}

#[test]
fn edges_from_source_without_a_source_is_input_unavailable() {
    assert_eq!(read_edge_list(&None), Err(EstimateError::InputUnavailable));
}

#[test]
fn edges_from_source_reads_the_lines() {
    let text = lines(&["u,v", "1,2", "x", "2,3"]);
    assert_eq!(read_edge_list(&Some(text)), Ok(vec![(1, 2), (2, 3)]));
    assert_eq!(read_edge_list(&Some(lines(&["1,2"]))), Err(EstimateError::EmptyInput));
    assert_eq!(read_edge_list(&Some(Vec::new())), Err(EstimateError::EmptyInput));
}
