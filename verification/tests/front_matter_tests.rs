use personas_core::{parse_front_matter, FrontMatterError};

#[test]
fn parses_with_extra_delimiter() {
    let content = "---\nid: 1\n---\n---\nbody\n";
    let parsed = parse_front_matter(content).expect("should parse");
    assert_eq!(parsed.yaml, "id: 1");
    assert_eq!(parsed.body, "---\nbody\n");
}

#[test]
fn errors_when_missing_front_matter() {
    let content = "id: 1\n---\nbody\n";
    let err = parse_front_matter(content).unwrap_err();
    assert_eq!(err, FrontMatterError::Missing);
}

#[test]
fn errors_when_unclosed_front_matter() {
    let content = "---\nid: 1\nbody\n";
    let err = parse_front_matter(content).unwrap_err();
    assert_eq!(err, FrontMatterError::Malformed);
}

#[test]
fn parses_windows_line_endings() {
    let content = "---\r\nid: 1\r\n---\r\nbody\r\n";
    let parsed = parse_front_matter(content).expect("should parse");
    assert_eq!(parsed.yaml, "id: 1");
    assert_eq!(parsed.body, "body\n");
}

#[test]
fn parses_closing_delimiter_with_trailing_spaces() {
    let content = "---\nid: 1\n---   \nbody\n";
    let parsed = parse_front_matter(content).expect("should parse");
    assert_eq!(parsed.yaml, "id: 1");
    assert_eq!(parsed.body, "body\n");
}

#[test]
fn parses_with_bom_prefix() {
    let content = "\u{FEFF}---\nid: 1\n---\nbody\n";
    let parsed = parse_front_matter(content).expect("should parse");
    assert_eq!(parsed.yaml, "id: 1");
    assert_eq!(parsed.body, "body\n");
}

#[test]
fn parses_without_trailing_newline_after_delimiter() {
    let content = "---\nid: 1\n---";
    let parsed = parse_front_matter(content).expect("should parse");
    assert_eq!(parsed.yaml, "id: 1");
    assert_eq!(parsed.body, "");
}

#[test]
fn parses_empty_front_matter_block() {
    let content = "---\n---\nbody\n";
    let parsed = parse_front_matter(content).expect("should parse");
    assert_eq!(parsed.yaml, "");
    assert_eq!(parsed.body, "body\n");
}

#[test]
fn errors_when_unclosed_front_matter_windows() {
    let content = "---\r\nid: 1\r\nbody\r\n";
    let err = parse_front_matter(content).unwrap_err();
    assert_eq!(err, FrontMatterError::Malformed);
}

#[test]
fn lib_parses_with_extra_delimiter() {
    let content = "---\nid: 1\n---\n---\nbody\n";
    let parsed = parse_front_matter(content).expect("should parse");
    assert_eq!(parsed.yaml, "id: 1");
    assert_eq!(parsed.body, "---\nbody\n");
}

#[test]
fn lib_errors_when_missing_front_matter() {
    let content = "id: 1\n---\nbody\n";
    let err = parse_front_matter(content).unwrap_err();
    assert_eq!(err, FrontMatterError::Missing);
}

#[test]
fn lib_errors_when_unclosed_front_matter() {
    let content = "---\nid: 1\nbody\n";
    let err = parse_front_matter(content).unwrap_err();
    assert_eq!(err, FrontMatterError::Malformed);
}

#[test]
fn lib_parses_windows_line_endings() {
    let content = "---\r\nid: 1\r\n---\r\nbody\r\n";
    let parsed = parse_front_matter(content).expect("should parse");
    assert_eq!(parsed.yaml, "id: 1");
    assert_eq!(parsed.body, "body\n");
}

#[test]
fn lib_errors_when_unclosed_front_matter_windows() {
    let content = "---\r\nid: 1\r\nbody\r\n";
    let err = parse_front_matter(content).unwrap_err();
    assert_eq!(err, FrontMatterError::Malformed);
}

#[test]
fn empty_content_is_missing() {
    let err = parse_front_matter("").unwrap_err();
    assert_eq!(err, FrontMatterError::Missing);
}

#[test]
fn four_dashes_do_not_close() {
    // A line of four dashes is not a closing delimiter; the scan continues
    // to the real one.
    let content = "---\na\n----\n---\nbody\n";
    let parsed = parse_front_matter(content).expect("should parse");
    assert_eq!(parsed.yaml, "a\n----");
    assert_eq!(parsed.body, "body\n");
}

#[test]
fn block_is_trimmed_of_surrounding_whitespace() {
    let content = "---\n\n  id: 1\t\n\n---\nbody\n";
    let parsed = parse_front_matter(content).expect("should parse");
    assert_eq!(parsed.yaml, "id: 1");
    assert_eq!(parsed.body, "body\n");
}

#[test]
fn closing_delimiter_with_tab_suffix_closes() {
    let content = "---\nid: 1\n---\t\nbody\n";
    let parsed = parse_front_matter(content).expect("should parse");
    assert_eq!(parsed.yaml, "id: 1");
    assert_eq!(parsed.body, "body\n");
}
