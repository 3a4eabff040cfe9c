use ryuk::{generate_marked_text, marked_text_ranges};

#[test]
fn cursors_and_selections_are_read_as_byte_ranges() {
    let (text, ranges) = marked_text_ranges("aˇb «cd» é«fgˇ»", false);
    assert_eq!(text, "ab cd éfg");
    assert_eq!(ranges, vec![1..1, 3..5, 8..10]);
}

#[test]
fn a_cursor_at_the_start_of_a_selection_reverses_it() {
    let (text, ranges) = marked_text_ranges("x«ˇyz»", true);
    assert_eq!(text, "xyz");
    assert_eq!(ranges, vec![3..1]);
}

#[test]
fn plain_text_has_no_ranges() {
    let (text, ranges) = marked_text_ranges("plain", true);
    assert_eq!(text, "plain");
    assert!(ranges.is_empty());
}

#[test]
fn generated_markers_read_back() {
    let marked = generate_marked_text("héllo world", &[0..0, 3..6, 11..7], true);
    assert_eq!(marked, "ˇhé«lloˇ» «ˇworl»d");
    let (text, ranges) = marked_text_ranges(&marked, true);
    assert_eq!(text, "héllo world");
    assert_eq!(ranges, vec![0..0, 3..6, 11..7]);
}

#[test]
fn markers_without_cursors() {
    assert_eq!(generate_marked_text("abc", &[0..1, 2..2], false), "«a»bˇc");
    assert_eq!(generate_marked_text("abc", &[2..0], false), "»«abc");
}
