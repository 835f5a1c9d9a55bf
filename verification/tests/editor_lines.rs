use synapse::editor_lines::{changed_line_span, editor_line_layout_matches, LineLayout};

const PARAGRAPH: u32 = 0;
const HEADING: u32 = 1;

/// The layouts of plain paragraph lines, one per line of `text`.
fn paragraph_lines(text: &str) -> Vec<LineLayout> {
    text.split('\n')
        .map(|line| LineLayout {
            source_len_chars: line.chars().count(),
            presentation: PARAGRAPH,
        })
        .collect()
}

#[test]
fn editor_virtual_list_invalidates_only_the_changed_line_span() {
    let old = paragraph_lines("one\ntwo\nthree");
    let new = paragraph_lines("one\nchanged\nthree");

    assert_eq!(changed_line_span(&old, &new), Some((1..2, 1)));
    assert_eq!(changed_line_span(&old, &old), None);

    let inserted = paragraph_lines("one\ninserted\ntwo\nthree");
    assert_eq!(changed_line_span(&old, &inserted), Some((1..1, 1)));
}

#[test]
fn a_changed_presentation_invalidates_a_line_of_the_same_length() {
    let old = paragraph_lines("# one\ntwo");
    let mut new = old.clone();
    new[0].presentation = HEADING;
    assert!(!editor_line_layout_matches(&old[0], &new[0]));
    assert_eq!(changed_line_span(&old, &new), Some((0..1, 1)));
}

#[test]
fn deleting_lines_leaves_an_empty_replacement() {
    let old = paragraph_lines("a\nbb\nccc\ndddd");
    let new = paragraph_lines("a\ndddd");
    assert_eq!(changed_line_span(&old, &new), Some((1..3, 0)));
}

#[test]
fn replacing_every_line_invalidates_the_whole_list() {
    let old = paragraph_lines("a\nbb");
    let new = paragraph_lines("ccc");
    assert_eq!(changed_line_span(&old, &new), Some((0..2, 1)));
    assert_eq!(changed_line_span(&Vec::new(), &new), Some((0..0, 1)));
}

#[test]
fn repeated_lines_are_shared_by_the_head_before_the_tail() {
    // The head takes every shared line it can; the tail is only looked for after it.
    let old = paragraph_lines("x\nx");
    let new = paragraph_lines("x\nx\nx");
    assert_eq!(changed_line_span(&old, &new), Some((2..2, 1)));
}
