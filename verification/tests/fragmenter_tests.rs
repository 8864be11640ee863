use indexer::fragment::{is_heading, parse_lines, FileFragment};

fn lines(ls: &[&str]) -> Vec<String> {
    ls.iter().map(|s| s.to_string()).collect()
}

#[test]
fn fragment_fold_scenario() {
    let input = lines(&["# Title", "a", "b", "# Next", "c"]);
    let frags = parse_lines(&input, '#');
    assert_eq!(
        frags,
        vec![
            FileFragment::Heading("# Title".to_string()),
            FileFragment::Paragraph("a\nb".to_string()),
            FileFragment::Heading("# Next".to_string()),
            FileFragment::Paragraph("c".to_string()),
        ]
    );
}

#[test]
fn fragment_fold_org_marker() {
    let input = lines(&["** Section", "body text"]);
    let frags = parse_lines(&input, '*');
    assert_eq!(
        frags,
        vec![
            FileFragment::Heading("** Section".to_string()),
            FileFragment::Paragraph("body text".to_string()),
        ]
    );
}

#[test]
fn fragment_empty_input() {
    let frags = parse_lines(&Vec::new(), '#');
    assert!(frags.is_empty());
}

#[test]
fn fragment_merges_adjacent_paragraphs() {
    let frags = parse_lines(&lines(&["a", "b", "c"]), '#');
    assert_eq!(frags, vec![FileFragment::Paragraph("a\nb\nc".to_string())]);
}

#[test]
fn fragment_no_merge_across_heading() {
    let frags = parse_lines(&lines(&["a", "# H x", "b"]), '#');
    assert_eq!(
        frags,
        vec![
            FileFragment::Paragraph("a".to_string()),
            FileFragment::Heading("# H x".to_string()),
            FileFragment::Paragraph("b".to_string()),
        ]
    );
}

#[test]
fn heading_needs_whitespace_after_marker() {
    assert!(!is_heading("#Title", '#'));
    assert!(is_heading("# Title", '#'));
    assert!(is_heading("#\tTitle", '#'));
}

#[test]
fn heading_needs_text_after_whitespace() {
    assert!(!is_heading("# ", '#'));
    assert!(!is_heading("#", '#'));
    assert!(is_heading("#  ", '#'));
}

#[test]
fn heading_needs_marker_run() {
    assert!(!is_heading(" # x", '#'));
    assert!(is_heading("### deep", '#'));
    assert!(!is_heading("", '#'));
}

#[test]
fn heading_line_becomes_own_fragment_at_end() {
    let frags = parse_lines(&lines(&["a", "# H x"]), '#');
    assert_eq!(
        frags,
        vec![
            FileFragment::Paragraph("a".to_string()),
            FileFragment::Heading("# H x".to_string()),
        ]
    );
}
