use strata_watch::classifier::is_strata_content;

#[test]
fn marker_inside_block_qualifies() {
    assert!(is_strata_content("---\ndoc-type: strata\n---\nbody text\n"));
}

#[test]
fn marker_with_crlf_opening_qualifies() {
    assert!(is_strata_content("---\r\ndoc-type: strata\r\n---\r\nbody\r\n"));
}

#[test]
fn quoted_marker_qualifies() {
    assert!(is_strata_content("---\ndoc-type: \"strata\"\n---\n"));
}

#[test]
fn marker_with_surrounding_whitespace_qualifies() {
    assert!(is_strata_content("---\n   doc-type: strata\t\n---\n"));
}

#[test]
fn marker_among_other_lines_qualifies() {
    assert!(is_strata_content(
        "---\ntitle: notes\ndoc-type: strata\ntags: [a, b]\n---\n# Heading\n"
    ));
}

#[test]
fn missing_closing_delimiter_fails() {
    assert!(!is_strata_content("---\ndoc-type: strata\nno closing here\n"));
}

#[test]
fn marker_only_outside_block_fails() {
    assert!(!is_strata_content("---\ntitle: notes\n---\ndoc-type: strata\n"));
}

#[test]
fn marker_after_first_closing_delimiter_fails() {
    assert!(!is_strata_content("---\ntitle: notes\n---\ndoc-type: strata\n---\n"));
}

#[test]
fn missing_opening_delimiter_fails() {
    assert!(!is_strata_content("doc-type: strata\n---\ndoc-type: strata\n---\n"));
}

#[test]
fn opening_delimiter_not_at_offset_zero_fails() {
    assert!(!is_strata_content("\n---\ndoc-type: strata\n---\n"));
}

#[test]
fn empty_content_fails() {
    assert!(!is_strata_content(""));
}

#[test]
fn other_doc_type_fails() {
    assert!(!is_strata_content("---\ndoc-type: other\n---\n"));
}

#[test]
fn marker_as_substring_of_line_fails() {
    assert!(!is_strata_content("---\nmy doc-type: strata here\n---\n"));
}

#[test]
fn empty_block_fails() {
    assert!(!is_strata_content("---\n---\nbody\n"));
}
