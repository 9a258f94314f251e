use heuristic_solver::input::{parse_contents, parse_decimal, split_bytes, split_fields};

fn bytes(s: &str) -> Vec<u8> {
    s.as_bytes().to_vec()
}

#[test]
fn split_bytes_keeps_empty_pieces() {
    assert_eq!(split_bytes(&bytes("a,,b,"), b','), vec![bytes("a"), vec![], bytes("b"), vec![]]);
    assert_eq!(split_bytes(&vec![], b','), vec![Vec::<u8>::new()]);
}

#[test]
fn split_fields_drops_empty_fields() {
    assert_eq!(split_fields(&bytes("  12 3   45 ")), vec![bytes("12"), bytes("3"), bytes("45")]);
    assert!(split_fields(&bytes("   ")).is_empty());
}

#[test]
fn parse_decimal_reads_digits_within_bound() {
    assert_eq!(parse_decimal(&bytes("0"), 10), Some(0));
    assert_eq!(parse_decimal(&bytes("65535"), 65535), Some(65535));
    assert_eq!(parse_decimal(&bytes("65536"), 65535), None);
    assert_eq!(parse_decimal(&bytes("4294967295"), u32::MAX), Some(u32::MAX));
    assert_eq!(parse_decimal(&bytes("99999999999999999999"), u32::MAX), None);
    assert_eq!(parse_decimal(&bytes(""), 10), None);
    assert_eq!(parse_decimal(&bytes("1x"), 10), None);
    assert_eq!(parse_decimal(&bytes("-1"), 10), None);
    assert_eq!(parse_decimal(&bytes("+7"), 10), Some(7));
    assert_eq!(parse_decimal(&bytes("+"), 10), None);
    assert_eq!(parse_decimal(&bytes("++7"), 10), None);
    assert_eq!(parse_decimal(&bytes("+11"), 10), None);
}

#[test]
fn parse_contents_transposes_item_lines() {
    let text = bytes("4 2 3\n0 x 1 0 1\n1 y 0 1 1\n");
    let (p, b) = parse_contents(&text).unwrap();
    assert_eq!(p, vec![4, 2, 3]);
    assert_eq!(b, vec![vec![1, 0], vec![0, 1], vec![1, 1]]);
}

#[test]
fn parse_contents_short_lines_fill_leading_tags() {
    let text = bytes("1 1 3\na b 5\na b 6 7\n\n");
    let (_, b) = parse_contents(&text).unwrap();
    assert_eq!(b, vec![vec![5, 6], vec![7], vec![]]);
}

#[test]
fn parse_contents_rejects_malformed() {
    assert_eq!(parse_contents(&bytes("1 2\n")), None);
    assert_eq!(parse_contents(&bytes("1 2 x\n")), None);
    assert_eq!(parse_contents(&bytes("1 1 1\na b 1 2\n")), None);
    assert_eq!(parse_contents(&bytes("1 1 1\na b 70000\n")), None);
    assert_eq!(parse_contents(&bytes("")), None);
    assert_eq!(parse_contents(&bytes("1 1 +2\na b +3 4\n")).unwrap().1, vec![vec![3], vec![4]]);
}
