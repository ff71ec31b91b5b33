use nearest_neighbors::{parse_component, parse_dataset_line};

fn line(s: &str) -> Vec<u8> {
    s.as_bytes().to_vec()
}

#[test]
fn parse_line_word_and_components() {
    let r = parse_dataset_line(&line("word 1.5 -2 0.25")).unwrap();
    assert_eq!(r.0, b"word".to_vec());
    assert_eq!(r.1, vec![1500, -2000, 250]);
}

#[test]
fn parse_line_single_component() {
    let r = parse_dataset_line(&line("x -0.001")).unwrap();
    assert_eq!(r.0, b"x".to_vec());
    assert_eq!(r.1, vec![-1]);
}

#[test]
fn parse_line_maximal_values() {
    let r = parse_dataset_line(&line("edge 1000 -1000.000")).unwrap();
    assert_eq!(r.1, vec![1_000_000, -1_000_000]);
}

#[test]
fn parse_line_rejects_bad_input() {
    // No space at all.
    assert!(parse_dataset_line(&line("loneword")).is_none());
    // Empty component between two spaces.
    assert!(parse_dataset_line(&line("w 1  2")).is_none());
    // Trailing space leaves an empty component.
    assert!(parse_dataset_line(&line("w 1 ")).is_none());
    // Not a number.
    assert!(parse_dataset_line(&line("w 1x")).is_none());
    // Too many fraction digits.
    assert!(parse_dataset_line(&line("w 1.2345")).is_none());
    // A dot needs digits on both sides.
    assert!(parse_dataset_line(&line("w .5")).is_none());
    assert!(parse_dataset_line(&line("w 5.")).is_none());
    // Out of the coordinate range.
    assert!(parse_dataset_line(&line("w 1000.001")).is_none());
    assert!(parse_dataset_line(&line("w -2000000")).is_none());
}

#[test]
fn parse_component_values() {
    let bytes = line("12.34");
    assert_eq!(parse_component(&bytes, 0, bytes.len()), Some(12340));
    let bytes = line("-7");
    assert_eq!(parse_component(&bytes, 0, bytes.len()), Some(-7000));
    let bytes = line("0.5");
    assert_eq!(parse_component(&bytes, 0, bytes.len()), Some(500));
    let bytes = line("--1");
    assert_eq!(parse_component(&bytes, 0, bytes.len()), None);
    let bytes = line("");
    assert_eq!(parse_component(&bytes, 0, 0), None);
}
