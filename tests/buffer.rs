use ryuk::movement::{down, left, right, up};
use ryuk::render::{line_spans, style_runs};
use ryuk::{
    Attribute, Buffer, FormatSpan, Selection, SelectionGoal, StyleRun, TextBuffer, TextPoint,
};

fn bold(range: std::ops::Range<usize>) -> FormatSpan {
    FormatSpan { range, bold: Some(true), italic: None, underline: None }
}

#[test]
fn toggling_bold_twice_over_a_range_adds_then_removes_one_span() {
    let mut b = Buffer::from_text("The quick brown fox");
    b.toggle_bold(10..19);
    assert_eq!(b.format_spans().to_vec(), vec![bold(10..19)]);
    b.toggle_bold(10..19);
    assert!(b.format_spans().is_empty());
}

#[test]
fn right_steps_one_byte_per_ascii_char_and_stops_at_the_end() {
    let b = Buffer::from_text("Hello, world!");
    let mut o = 7;
    for _ in 0..4 {
        o = right(&b, o).unwrap();
    }
    assert_eq!(o, 11);
    assert_eq!(right(&b, 13), None);
}

#[test]
fn down_resolves_the_goal_and_clamps_to_a_shorter_line() {
    let b = Buffer::from_text("ab\ncdef\n");
    let (o, goal) = down(&b, 1, SelectionGoal::Unset);
    assert_eq!(o, 4);
    assert_eq!(goal, SelectionGoal::HorizontalPosition(1));
    assert_eq!(b.offset_to_point(4), TextPoint::new(1, 1));
    let (o2, goal2) = down(&b, o, goal);
    assert_eq!(o2, 8);
    assert_eq!(goal2, SelectionGoal::HorizontalPosition(1));
}

#[test]
fn removing_a_span_range_drops_it_and_removing_before_shifts_it() {
    let mut b = Buffer::from_text("The quick brown fox");
    b.toggle_bold(4..16);
    let mut gone = b.clone();
    gone.remove(4..16);
    assert!(gone.format_spans().is_empty());
    assert_eq!(gone.text(), "The fox");
    b.remove(0..4);
    assert_eq!(b.format_spans().to_vec(), vec![bold(0..12)]);
}

#[test]
fn point_round_trip_on_every_offset() {
    let b = Buffer::from_text("ab\nçd\r\n\nxyz");
    for o in 0..=b.len() {
        let p = b.offset_to_point(o);
        assert_eq!(b.point_to_offset(p), o);
    }
    assert_eq!(b.offset_to_point(5), TextPoint::new(1, 2));
    assert_eq!(b.offset_to_point(100), TextPoint::new(3, 3));
}

#[test]
fn utf16_round_trip_on_every_boundary() {
    let b = Buffer::from_text("a😀é\nz");
    let len16 = b.byte_to_utf16(b.len());
    assert_eq!(len16, 6);
    for u in [0, 1, 3, 4, 5, 6] {
        assert_eq!(b.byte_to_utf16(b.utf16_to_byte(u)), u);
    }
    assert_eq!(b.utf16_to_byte(3), 5);
    assert_eq!(b.utf16_to_byte(2), 1);
    assert_eq!(b.utf16_to_byte(99), b.len());
    assert_eq!(b.byte_to_utf16(99), 6);
}

#[test]
fn toggling_twice_from_unformatted_leaves_no_span_over_the_range() {
    let mut b = Buffer::from_text("one two three four");
    b.toggle_italic(0..3);
    b.toggle_bold(4..13);
    b.toggle_bold(4..13);
    assert!(b
        .format_spans()
        .iter()
        .all(|s| s.bold != Some(true) || s.range.end <= 4 || s.range.start >= 13));
    assert_eq!(b.format_spans().len(), 1);
    assert_eq!(b.format_spans()[0].italic, Some(true));
}

#[test]
fn toggling_another_attribute_inside_a_span_keeps_both() {
    let mut b = Buffer::from_text("The quick brown fox");
    b.toggle_bold(4..15);
    b.toggle_italic(6..9);
    let spans = b.format_spans().to_vec();
    assert!(spans.contains(&bold(4..15)));
    assert!(spans
        .iter()
        .any(|s| s.range == (6..9) && s.italic == Some(true) && s.bold.is_none()));
    for x in 6..9 {
        assert!(spans.iter().any(|s| s.bold == Some(true) && s.range.contains(&x)));
        assert!(spans.iter().any(|s| s.italic == Some(true) && s.range.contains(&x)));
    }
}

#[test]
fn toggling_off_part_of_a_span_splits_it_and_keeps_order() {
    let mut b = Buffer::from_text("0123456789");
    b.toggle_bold(0..10);
    b.toggle_italic(2..3);
    b.toggle_bold(4..6);
    let starts: Vec<usize> = b.format_spans().iter().map(|s| s.range.start).collect();
    assert_eq!(starts, vec![0, 2, 6]);
    assert!(b.format_spans().contains(&bold(0..4)));
    assert!(b.format_spans().contains(&bold(6..10)));
}

#[test]
fn toggling_over_a_gap_sets_the_whole_range() {
    let mut b = Buffer::from_text("0123456789");
    b.toggle_bold(0..3);
    b.toggle_bold(5..8);
    assert!(!b.is_formatted_with(&(0..8), Attribute::Bold));
    b.toggle_bold(0..8);
    assert_eq!(b.format_spans().to_vec(), vec![bold(0..8)]);
    assert!(b.is_formatted_with(&(1..7), Attribute::Bold));
    assert!(!b.is_formatted_with(&(3..3), Attribute::Bold));
}

#[test]
fn empty_toggle_changes_nothing() {
    let mut b = Buffer::from_text("abc");
    b.toggle_bold(0..3);
    b.toggle_underline(1..1);
    assert_eq!(b.format_spans().to_vec(), vec![bold(0..3)]);
}

#[test]
fn insert_shifts_later_spans_and_keeps_earlier_ones() {
    let mut b = Buffer::from_text("aaaa bbbb cccc");
    b.toggle_bold(0..4);
    b.toggle_italic(5..9);
    b.toggle_underline(10..14);
    b.insert(5, "XYZ");
    let spans = b.format_spans().to_vec();
    assert_eq!(spans[0].range, 0..4);
    assert_eq!(spans[1].range, 8..12);
    assert_eq!(spans[2].range, 13..17);
    b.insert(10, "--");
    assert_eq!(b.format_spans()[1].range, 8..14);
    assert_eq!(b.text(), "aaaa XYZbb--bb cccc");
}

#[test]
fn shift_by_delta_follows_each_kind_of_edit() {
    let cases: Vec<(usize, isize, std::ops::Range<usize>)> = vec![
        (2, 3, 8..13),
        (5, 3, 8..13),
        (7, 3, 5..13),
        (10, 3, 5..10),
        (0, -3, 2..7),
        (12, -2, 5..10),
        (4, -8, 4..4),
        (3, -4, 3..6),
        (8, -4, 5..8),
        (6, -2, 5..8),
        (6, 0, 5..10),
    ];
    for (offset, delta, expected) in cases {
        let mut s = bold(5..10);
        s.shift_by_delta(offset, delta);
        assert_eq!(s.range, expected, "offset {offset} delta {delta}");
        assert_eq!(s.bold, Some(true));
    }
}

#[test]
fn format_span_helpers() {
    let s = FormatSpan::new(3..7);
    assert!(!s.has_formatting());
    assert!(bold(3..7).has_formatting());
    assert!(s.overlaps(&(6..9)));
    assert!(!s.overlaps(&(7..9)));
    assert!(!s.overlaps(&(0..3)));
    assert_eq!(FormatSpan::with_attribute(1..2, Attribute::Underline).underline, Some(true));
    assert_eq!(bold(1..2).with_range(4, 6), bold(4..6));
}

#[test]
fn lines_drop_their_terminators() {
    let t = TextBuffer::from("one\r\ntwo\n\nlast");
    assert_eq!(t.line_count(), 4);
    assert_eq!(t.line(0), Some("one".to_string()));
    assert_eq!(t.line(1), Some("two".to_string()));
    assert_eq!(t.line(2), Some(String::new()));
    assert_eq!(t.line(3), Some("last".to_string()));
    assert_eq!(t.line(4), None);
    assert_eq!(t.line_len(0), 3);
    assert_eq!(t.line_len(9), 0);
    assert_eq!(t.max_point(), TextPoint::new(3, 4));
    assert_eq!(t.point_to_offset(TextPoint::new(0, 99)), 4);
    assert_eq!(t.point_to_offset(TextPoint::new(99, 1)), 11);
    assert_eq!(t.text(), "one\r\ntwo\n\nlast");
}

#[test]
fn text_buffer_edits_by_byte_offset() {
    let mut t = TextBuffer::new();
    assert!(t.is_empty());
    t.insert(0, "héllo");
    assert_eq!(t.len(), 6);
    t.insert(3, "XY");
    assert_eq!(t.text(), "héXYllo");
    t.remove(1..3);
    assert_eq!(t.text(), "hXYllo");
    assert_eq!(t.slice(1..3), "XY");
    assert_eq!(t.byte_to_char(6), 6);
    assert_eq!(TextBuffer::from("é").clip_offset(1), 0);
    assert_eq!(TextBuffer::from("é").clip_offset(7), 2);
    assert!(!TextBuffer::default().line(0).unwrap().contains('x'));
}

#[test]
fn replace_drops_formatting_of_a_fully_replaced_span() {
    let mut b = Buffer::from_text("keep BOLD keep");
    b.toggle_bold(5..9);
    b.replace(5..9, "bold");
    assert_eq!(b.text(), "keep bold keep");
    assert!(b.format_spans().is_empty());
    b.toggle_bold(0..4);
    b.replace(1..3, "XYZ");
    assert_eq!(b.format_spans().to_vec(), vec![bold(0..5)]);
}

#[test]
fn left_and_right_wrap_across_lines() {
    let b = Buffer::from_text("ab\ncd");
    assert_eq!(left(&b, 3), Some(2));
    assert_eq!(right(&b, 2), Some(3));
    assert_eq!(left(&b, 0), None);
    assert_eq!(right(&b, 5), None);
    assert_eq!(up(&b, 1, SelectionGoal::Unset), (0, SelectionGoal::HorizontalPosition(1)));
    assert_eq!(up(&b, 4, SelectionGoal::Unset), (1, SelectionGoal::HorizontalPosition(1)));
    assert_eq!(down(&b, 4, SelectionGoal::Unset), (5, SelectionGoal::HorizontalPosition(1)));
}

#[test]
fn movement_lands_on_code_point_boundaries() {
    let b = Buffer::from_text("é\nab€");
    assert_eq!(right(&b, 0), Some(2));
    assert_eq!(left(&b, 2), Some(0));
    assert_eq!(left(&b, 3), Some(2));
    let (o, _) = up(&b, 4, SelectionGoal::Unset);
    assert_eq!(o, 0);
    let (o, _) = down(&b, 2, SelectionGoal::HorizontalPosition(4));
    assert_eq!(o, 3 + 2);
}

#[test]
fn style_runs_split_at_span_bounds() {
    let spans = vec![
        bold(2..6),
        FormatSpan { range: 4..9, bold: None, italic: Some(true), underline: None },
        FormatSpan::new(1..3),
    ];
    let runs = style_runs(8, &spans);
    let plain = |len| StyleRun { len, bold: false, italic: false, underline: false };
    assert_eq!(
        runs,
        vec![
            plain(2),
            StyleRun { len: 2, bold: true, italic: false, underline: false },
            StyleRun { len: 2, bold: true, italic: true, underline: false },
            StyleRun { len: 2, bold: false, italic: true, underline: false },
        ]
    );
    assert_eq!(style_runs(5, &[]), vec![plain(5)]);
    assert_eq!(style_runs(0, &spans), vec![plain(0)]);
}

#[test]
fn line_spans_clip_to_the_line() {
    let spans = vec![bold(2..6), bold(8..12), bold(20..30)];
    let clipped = line_spans(&spans, 4, 6);
    assert_eq!(clipped, vec![bold(0..2), bold(4..6)]);
}

#[test]
fn text_point_constructors() {
    assert_eq!(TextPoint::zero(), TextPoint::new(0, 0));
    assert!(TextPoint::new(1, 0) > TextPoint::new(0, 9));
}

#[test]
fn selection_accessors() {
    let mut s = Selection::new(2, 5);
    assert_eq!((s.head(), s.tail(), s.len()), (5, 2, 3));
    s.reversed = true;
    assert_eq!((s.head(), s.tail()), (2, 5));
    assert_eq!(s.range(), 2..5);
    assert!(Selection::cursor(4).is_cursor());
    assert!(Selection::cursor(4).is_empty());
    assert_eq!(Selection::new(5, 2).len(), 0);
}

#[test]
fn an_empty_buffer_has_one_empty_line() {
    let b = Buffer::new();
    assert!(b.is_empty());
    assert_eq!(b.len(), 0);
    assert_eq!(b.line_count(), 1);
    assert_eq!(b.line(0), Some(String::new()));
    assert_eq!(b.line(1), None);
    assert_eq!(b.offset_to_point(0), TextPoint::zero());
    assert_eq!(b.max_point(), TextPoint::zero());
    assert_eq!(left(&b, 0), None);
    assert_eq!(right(&b, 0), None);
    assert_eq!(up(&b, 0, SelectionGoal::Unset), (0, SelectionGoal::HorizontalPosition(0)));
    assert_eq!(down(&b, 0, SelectionGoal::Unset), (0, SelectionGoal::HorizontalPosition(0)));
    assert_eq!(Buffer::default().text(), "");
}

#[test]
fn edits_at_both_ends_and_empty_ranges() {
    let mut b = Buffer::from_text("mid");
    b.toggle_bold(0..3);
    b.insert(0, ">");
    b.insert(b.len(), "<");
    assert_eq!(b.text(), ">mid<");
    assert_eq!(b.format_spans().to_vec(), vec![bold(1..4)]);
    b.remove(2..2);
    assert_eq!(b.text(), ">mid<");
    assert_eq!(b.format_spans().to_vec(), vec![bold(1..4)]);
    assert_eq!(b.slice(1..4), "mid");
    b.insert(2, "");
    assert_eq!(b.format_spans().to_vec(), vec![bold(1..4)]);
}

#[test]
fn utf16_conversions_never_go_backwards() {
    let b = Buffer::from_text("x😀yé");
    let mut last = 0;
    for o in 0..=b.len() + 2 {
        let u = b.byte_to_utf16(o);
        assert!(u >= last);
        last = u;
    }
    let mut last = 0;
    for u in 0..8 {
        let o = b.utf16_to_byte(u);
        assert!(o >= last);
        last = o;
    }
}

#[test]
fn a_column_past_the_line_end_clamps_before_its_line_feed() {
    let b = Buffer::from_text("ab\ncd");
    assert_eq!(b.point_to_offset(TextPoint::new(0, 3)), 2);
    assert_eq!(b.point_to_offset(TextPoint::new(0, 2)), 2);
    assert_eq!(b.point_to_offset(TextPoint::new(1, 9)), 5);
    let crlf = Buffer::from_text("ab\r\ncd");
    assert_eq!(crlf.point_to_offset(TextPoint::new(0, 9)), 3);
    assert_eq!(crlf.offset_to_point(3), TextPoint::new(0, 3));
}

#[test]
fn removing_a_span_range_takes_out_every_span_within_it() {
    let mut b = Buffer::from_text("0123456789abcdef");
    b.toggle_bold(2..10);
    b.toggle_italic(3..5);
    b.toggle_underline(6..12);
    b.toggle_italic(12..14);
    let before = b.format_spans().len();
    b.remove(2..10);
    assert_eq!(b.format_spans().len(), before - 2);
    assert!(b.format_spans().iter().all(|s| s.range.start < s.range.end));
    assert_eq!(b.format_spans()[0].range, 2..4);
    assert_eq!(b.format_spans()[1].range, 4..6);
}
