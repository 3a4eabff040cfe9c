use ryuk::{generate_marked_text, marked_text_ranges, Buffer, Editor, FormatSpan, Selection};

/// The plain text of a marked text and its first range, if any.
fn parse_marked(marked: &str) -> (String, Option<(usize, usize)>) {
    let (text, ranges) = marked_text_ranges(marked, true);
    let first = ranges.first().map(|r| (r.start, r.end));
    (text, first)
}

/// Strips the indentation that the multi-line states below carry.
fn unindent(s: &str) -> String {
    let lines: Vec<&str> = s.lines().collect();
    let body: Vec<&str> = lines.iter().skip_while(|l| l.trim().is_empty()).cloned().collect();
    let indent = body
        .iter()
        .filter(|l| !l.trim().is_empty())
        .map(|l| l.len() - l.trim_start().len())
        .min()
        .unwrap_or(0);
    let mut out = String::new();
    for l in body {
        if l.trim().is_empty() {
            continue;
        }
        out.push_str(&l[indent..]);
        out.push('\n');
    }
    out
}

fn set_state(editor: &mut Editor, marked: &str) {
    let (text, range) = parse_marked(marked);
    let len = editor.buffer().len();
    editor.change_selections(Selection::new(0, len));
    editor.handle_input(&text);
    if let Some((start, end)) = range {
        editor.change_selections(Selection::new(start, end));
    }
}

fn assert_state(editor: &Editor, marked: &str) {
    let (text, range) = parse_marked(marked);
    assert_eq!(editor.buffer().text(), text, "unexpected buffer text");
    if let Some((start, end)) = range {
        let (a, b) = if start <= end { (start, end) } else { (end, start) };
        let sel = editor.selection();
        if (sel.start, sel.end) != (a, b) {
            let actual = generate_marked_text(&text, &[sel.start..sel.end], true);
            assert_eq!(actual, marked, "unexpected selection");
        }
    }
}

fn select(editor: &mut Editor, start: usize, end: usize) {
    editor.change_selections(Selection::new(start, end));
}

fn spans(editor: &Editor) -> Vec<FormatSpan> {
    editor.buffer().format_spans().to_vec()
}

/// The effective formatting at an offset.
fn formatting_at(buffer: &Buffer, offset: usize) -> FormatSpan {
    let mut result = FormatSpan { range: offset..offset, bold: None, italic: None, underline: None };
    for span in buffer.format_spans() {
        if span.range.contains(&offset) {
            if span.bold.is_some() {
                result.bold = span.bold;
            }
            if span.italic.is_some() {
                result.italic = span.italic;
            }
            if span.underline.is_some() {
                result.underline = span.underline;
            }
        }
    }
    result
}

#[test]
fn test_backspace() {
    let mut e = Editor::new();
    set_state(&mut e, &unindent("
        The quick brown fox
        jumˇps over the lazy dog
    "));
    e.backspace();
    assert_state(&e, &unindent("
        The quick brown fox
        juˇps over the lazy dog
    "));

    set_state(&mut e, &unindent("
        The quick «brownˇ» fox
    "));
    e.backspace();
    assert_state(&e, &unindent("
        The quick ˇ fox
    "));
}

#[test]
fn test_delete() {
    let mut e = Editor::new();
    set_state(&mut e, &unindent("
        The quˇick brown fox
        jumps over the lazy dog
    "));
    e.delete();
    assert_state(&e, &unindent("
        The quˇck brown fox
        jumps over the lazy dog
    "));

    set_state(&mut e, "Hello, «worldˇ»!");
    e.delete();
    assert_state(&e, "Hello, ˇ!");
}

#[test]
fn test_newline() {
    let mut e = Editor::new();
    set_state(&mut e, "Hello, world!ˇ");
    e.newline();
    assert_state(&e, "Hello, world!\nˇ");
}

#[test]
fn test_delete_to_end_of_line() {
    let mut e = Editor::new();
    set_state(&mut e, &unindent("
        The quˇick brown fox
        jumps over the lazy dog
    "));
    e.delete_to_end_of_line();
    assert_state(&e, &unindent("
        The quˇ
        jumps over the lazy dog
    "));
}

#[test]
fn test_delete_to_beginning_of_line() {
    let mut e = Editor::new();
    set_state(&mut e, &unindent("
        The quick brown fox
        jumps over the ˇlazy dog
    "));
    e.delete_to_beginning_of_line();
    assert_state(&e, &unindent("
        The quick brown fox
        ˇlazy dog
    "));
}

#[test]
fn test_move_up() {
    let mut e = Editor::new();
    set_state(&mut e, &unindent("
        The quick brown fox
        jumˇps over the lazy dog
    "));
    e.move_up();
    assert_state(&e, &unindent("
        Theˇ quick brown fox
        jumps over the lazy dog
    "));
}

#[test]
fn test_move_down() {
    let mut e = Editor::new();
    set_state(&mut e, &unindent("
        The ˇquick brown fox
        jumps over the lazy dog
    "));
    e.move_down();
    assert_state(&e, &unindent("
        The quick brown fox
        jumpˇs over the lazy dog
    "));
}

#[test]
fn test_move_left() {
    let mut e = Editor::new();
    set_state(&mut e, "Hello, woˇrld!");
    e.move_left();
    assert_state(&e, "Hello, wˇorld!");
}

#[test]
fn test_move_right() {
    let mut e = Editor::new();
    set_state(&mut e, "Hello, wˇorld!");
    e.move_right();
    assert_state(&e, "Hello, woˇrld!");
}

#[test]
fn test_toggle_bold() {
    let mut e = Editor::new();
    set_state(&mut e, "Hello, «worldˇ»!");
    e.toggle_bold();
    let spans = spans(&e);
    assert_eq!(spans.len(), 1);
    assert_eq!(spans[0].range, 7..12);
    assert_eq!(spans[0].bold, Some(true));
    assert_eq!(spans[0].italic, None);
    assert_eq!(spans[0].underline, None);
}

#[test]
fn test_toggle_italic() {
    let mut e = Editor::new();
    set_state(&mut e, "Hello, «worldˇ»!");
    e.toggle_italic();
    let spans = spans(&e);
    assert_eq!(spans.len(), 1);
    assert_eq!(spans[0].range, 7..12);
    assert_eq!(spans[0].bold, None);
    assert_eq!(spans[0].italic, Some(true));
    assert_eq!(spans[0].underline, None);
}

#[test]
fn test_toggle_underline() {
    let mut e = Editor::new();
    set_state(&mut e, "Hello, «worldˇ»!");
    e.toggle_underline();
    let spans = spans(&e);
    assert_eq!(spans.len(), 1);
    assert_eq!(spans[0].range, 7..12);
    assert_eq!(spans[0].bold, None);
    assert_eq!(spans[0].italic, None);
    assert_eq!(spans[0].underline, Some(true));
}

#[test]
fn test_toggle_formatting() {
    let mut e = Editor::new();
    set_state(&mut e, &unindent("
        The «quick brown foxˇ»
        jumps over the lazy dog
    "));
    e.toggle_bold();

    select(&mut e, 10, 25);
    assert_state(&e, &unindent("
        The quick «brown fox
        jumpsˇ» over the lazy dog
    "));
    e.toggle_italic();

    select(&mut e, 16, 30);
    assert_state(&e, &unindent("
        The quick brown «fox
        jumps overˇ» the lazy dog
    "));
    e.toggle_underline();

    let spans = spans(&e);
    let first = spans.iter().find(|s| s.range == (4..19)).unwrap();
    assert_eq!(first.bold, Some(true));
    assert_eq!(first.italic, None);
    assert_eq!(first.underline, None);

    let second = spans.iter().find(|s| s.range == (10..25)).unwrap();
    assert_eq!(second.bold, None);
    assert_eq!(second.italic, Some(true));
    assert_eq!(second.underline, None);

    let third = spans.iter().find(|s| s.range == (16..30)).unwrap();
    assert_eq!(third.bold, None);
    assert_eq!(third.italic, None);
    assert_eq!(third.underline, Some(true));

    let buffer = e.buffer();
    let fmt = formatting_at(buffer, 7);
    assert_eq!((fmt.bold, fmt.italic, fmt.underline), (Some(true), None, None));
    let fmt = formatting_at(buffer, 13);
    assert_eq!((fmt.bold, fmt.italic, fmt.underline), (Some(true), Some(true), None));
    let fmt = formatting_at(buffer, 18);
    assert_eq!((fmt.bold, fmt.italic, fmt.underline), (Some(true), Some(true), Some(true)));
    let fmt = formatting_at(buffer, 22);
    assert_eq!((fmt.bold, fmt.italic, fmt.underline), (None, Some(true), Some(true)));
    let fmt = formatting_at(buffer, 27);
    assert_eq!((fmt.bold, fmt.italic, fmt.underline), (None, None, Some(true)));
    let fmt = formatting_at(buffer, 32);
    assert_eq!((fmt.bold, fmt.italic, fmt.underline), (None, None, None));
}

#[test]
fn test_backspace_with_formatting() {
    let mut e = Editor::new();
    set_state(&mut e, &unindent("
        The «quick brown ˇ»fox
        jumps over the lazy dog
    "));
    e.toggle_bold();

    select(&mut e, 20, 30);
    assert_state(&e, &unindent("
        The quick brown fox
        «jumps overˇ» the lazy dog
    "));
    e.toggle_italic();

    select(&mut e, 4, 16);
    assert_state(&e, &unindent("
        The «quick brown ˇ»fox
        jumps over the lazy dog
    "));
    e.backspace();
    assert_state(&e, &unindent("
        The ˇfox
        jumps over the lazy dog
    "));

    let s = spans(&e);
    assert_eq!(s.len(), 1);
    assert_eq!(s[0].range, 8..18);
    assert_eq!(s[0].italic, Some(true));
    assert_eq!(s[0].bold, None);

    select(&mut e, 4, 18);
    assert_state(&e, &unindent("
        The «fox
        jumps overˇ» the lazy dog
    "));
    e.backspace();
    assert_state(&e, &unindent("
        The ˇ the lazy dog
    "));
    assert_eq!(spans(&e).len(), 0);

    select(&mut e, 4, 13);
    assert_state(&e, &unindent("
        The « the lazyˇ» dog
    "));
    e.toggle_underline();

    select(&mut e, 0, 4);
    assert_state(&e, &unindent("
        «The ˇ» the lazy dog
    "));
    e.backspace();
    assert_state(&e, &unindent("
        ˇ the lazy dog
    "));

    let s = spans(&e);
    assert_eq!(s.len(), 1);
    assert_eq!(s[0].range, 0..9);
    assert_eq!(s[0].underline, Some(true));
}

#[test]
fn test_selection_delete() {
    let mut e = Editor::new();
    set_state(&mut e, "The quick «brownˇ» fox");
    e.backspace();
    assert_state(&e, "The quick ˇ fox");

    set_state(&mut e, "Hello, «worldˇ»!");
    e.delete();
    assert_state(&e, "Hello, ˇ!");

    set_state(&mut e, "foo «barˇ» baz");
    e.handle_input("xyz");
    assert_state(&e, "foo xyzˇ baz");
}

#[test]
fn test_selection_movement_collapses() {
    let mut e = Editor::new();
    set_state(&mut e, "Hello «worldˇ»!");
    e.move_right();
    assert_state(&e, "Hello worldˇ!");

    set_state(&mut e, "Hello «worldˇ»!");
    e.move_left();
    assert_state(&e, "Hello ˇworld!");

    set_state(&mut e, &unindent("
        The quick brown fox
        jumps over «ˇthe lazy dog»
    "));
    e.move_up();
    assert_state(&e, &unindent("
        The quick bˇrown fox
        jumps over the lazy dog
    "));

    set_state(&mut e, &unindent("
        The «quick brownˇ» fox
        jumps over the lazy dog
    "));
    e.move_down();
    assert_state(&e, &unindent("
        The quick brown fox
        jumps over the ˇlazy dog
    "));
}

#[test]
fn vertical_moves_remember_the_column() {
    let mut e = Editor::new();
    set_state(&mut e, "abcdef\nab\nabcdefgh");
    select(&mut e, 5, 5);
    e.move_down();
    assert_eq!(e.selection().start, 9);
    e.move_down();
    assert_eq!(e.selection().start, 15);
    e.move_up();
    e.move_up();
    assert_eq!(e.selection().start, 5);
}

#[test]
fn moves_step_over_whole_code_points() {
    let mut e = Editor::new();
    set_state(&mut e, "aéb");
    select(&mut e, 1, 1);
    e.move_right();
    assert_eq!(e.selection().start, 3);
    e.move_left();
    assert_eq!(e.selection().start, 1);
    select(&mut e, 3, 3);
    e.backspace();
    assert_eq!(e.buffer().text(), "ab");
    assert_eq!(e.selection().start, 1);
    e.delete();
    assert_eq!(e.buffer().text(), "a");
}

#[test]
fn mouse_selection_follows_the_drag() {
    let mut e = Editor::new();
    set_state(&mut e, "Hello, world!");
    e.mouse_left_down(7, false);
    e.mouse_dragged(12);
    let sel = e.selection();
    assert_eq!((sel.start, sel.end, sel.reversed), (7, 12, false));
    e.mouse_dragged(2);
    let sel = e.selection();
    assert_eq!((sel.start, sel.end, sel.reversed), (2, 7, true));
    e.mouse_left_down(100, false);
    assert_eq!(e.selection().start, 13);
}

#[test]
fn input_method_ranges_are_utf16() {
    let mut e = Editor::new();
    set_state(&mut e, "a😀b");
    assert_eq!(e.text_for_range(1..3), Some("😀".to_string()));
    assert_eq!(e.text_for_range(3..1), None);
    e.replace_and_mark_text_in_range(Some(3..4), "xy", Some(0..1));
    assert_eq!(e.buffer().text(), "a😀xy");
    assert_eq!(e.marked_text_range(), Some(3..4));
    e.replace_text_in_range(None, "Z");
    assert_eq!(e.buffer().text(), "a😀Zy");
    assert_eq!(e.marked_text_range(), None);
    let (range, reversed) = e.selected_text_range();
    assert_eq!(range, 4..4);
    assert!(!reversed);
}
