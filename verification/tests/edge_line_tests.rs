use graph_separation::edge_line::{parse_edge_line, parse_id, record_edge_line};

#[test]
fn parse_id_reads_decimal_digits() {
    assert_eq!(parse_id(b"0"), Some(0));
    assert_eq!(parse_id(b"7"), Some(7));
    assert_eq!(parse_id(b"1174"), Some(1174));
    assert_eq!(parse_id(b"007"), Some(7));
    assert_eq!(parse_id(b"+42"), Some(42));
}

#[test]
fn parse_id_rejects_what_is_no_number() {
    assert_eq!(parse_id(b""), None);
    assert_eq!(parse_id(b"+"), None);
    assert_eq!(parse_id(b"-1"), None);
    assert_eq!(parse_id(b"++1"), None);
    assert_eq!(parse_id(b" 1"), None);
    assert_eq!(parse_id(b"1 "), None);
    assert_eq!(parse_id(b"1a"), None);
    assert_eq!(parse_id(b"1.5"), None);
    assert_eq!(parse_id(b"1+"), None);
}

#[test]
fn parse_id_agrees_with_std_at_the_limit() {
    let max = usize::MAX.to_string();
    assert_eq!(parse_id(max.as_bytes()), Some(usize::MAX));
    let mut over = max.clone();
    over.push('0');
    assert_eq!(parse_id(over.as_bytes()), None);
    let next = format!("{}", usize::MAX as u128 + 1);
    assert_eq!(parse_id(next.as_bytes()), None);
    for text in ["0", "18", "+3", "-3", "", "+", "99999999999999999999999", "12x", "0009"] {
        assert_eq!(parse_id(text.as_bytes()), text.parse::<usize>().ok());
    }
}

#[test]
fn parse_edge_line_reads_two_fields() {
    assert_eq!(parse_edge_line(b"1,2"), Some((1, 2)));
    assert_eq!(parse_edge_line(b"12,345"), Some((12, 345)));
    assert_eq!(parse_edge_line(b"+1,+2"), Some((1, 2)));
    assert_eq!(parse_edge_line(b"5,5"), Some((5, 5)));
}

#[test]
fn parse_edge_line_skips_other_lines() {
    assert_eq!(parse_edge_line(b""), None);
    assert_eq!(parse_edge_line(b"1"), None);
    assert_eq!(parse_edge_line(b","), None);
    assert_eq!(parse_edge_line(b"1,"), None);
    assert_eq!(parse_edge_line(b",2"), None);
    assert_eq!(parse_edge_line(b"1,2,3"), None);
    assert_eq!(parse_edge_line(b"1,2,"), None);
    assert_eq!(parse_edge_line(b"a,b"), None);
    assert_eq!(parse_edge_line(b"1, 2"), None);
    assert_eq!(parse_edge_line(b"1;2"), None);
    assert_eq!(parse_edge_line(b"source,target"), None);
}

#[test]
fn record_edge_line_appends_or_passes_over() {
    let mut nodes = Vec::new();
    let mut edges = Vec::new();
    record_edge_line(&mut nodes, &mut edges, b"1,2");
    record_edge_line(&mut nodes, &mut edges, b"not an edge");
    record_edge_line(&mut nodes, &mut edges, b"3,1");
    record_edge_line(&mut nodes, &mut edges, b"4,5,6");
    assert_eq!(nodes, vec![1, 3]);
    assert_eq!(edges, vec![2, 1]);
}
