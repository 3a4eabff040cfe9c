//! The editing session: a buffer, a selection in it, and an input-method
//! marked range. Each operation is one step from state and input to the next
//! state; the surrounding application performs the rendering and the events.

use vstd::prelude::*;
use std::ops::Range;
use crate::buffer::Buffer;
use crate::format_span::Attribute;
use crate::movement::{
    down, down_of, goal_column, lemma_step_boundaries, left, left_of, next_boundary,
    prev_boundary, right, right_of, up, up_of,
};
use crate::offsets::{byte_len, on_char_boundary};
use crate::overlay::{spans_after_insert, spans_after_remove, toggled};
use crate::selection::{Selection, SelectionGoal};
use crate::text::{
    byte_of_utf16, floor_boundary, lemma_byte_of_utf16_boundary, lemma_floor_boundary,
    lemma_inserted_boundary, lemma_inserted_len, lemma_removed_boundary, lemma_removed_len,
    line_byte_len, point_offset, point_row, text_inserted, text_removed, utf16_of_byte, TextPoint,
};

verus! {

/// An empty selection at `o`.
pub open spec fn caret(o: int) -> Selection {
    Selection::new_spec(o as usize, o as usize)
}

/// `sel` with its goal dropped.
pub open spec fn without_goal(sel: Selection) -> Selection {
    Selection { goal: SelectionGoal::Unset, ..sel }
}

/// The selection with its moving end at `o`, kept in order (the direction
/// flips when the ends cross), goal dropped.
pub open spec fn selection_to(sel: Selection, o: usize) -> Selection {
    let moved = if sel.reversed {
        Selection { start: o, ..sel }
    } else {
        Selection { end: o, ..sel }
    };
    if moved.end < moved.start {
        Selection {
            start: moved.end,
            end: moved.start,
            reversed: !moved.reversed,
            goal: SelectionGoal::Unset,
        }
    } else {
        without_goal(moved)
    }
}

/// `sel` with both ends moved to the char boundary at or before them, and put in order.
pub open spec fn clipped_selection(s: Seq<char>, sel: Selection) -> Selection {
    let a = floor_boundary(s, sel.start as int) as usize;
    let b = floor_boundary(s, sel.end as int) as usize;
    if b < a {
        Selection { start: b, end: a, reversed: !sel.reversed, goal: sel.goal }
    } else {
        Selection { start: a, end: b, ..sel }
    }
}

/// The bytes that a backspace takes out: the selection, or the code point
/// before an empty one.
pub open spec fn backspace_range(s: Seq<char>, sel: Selection) -> (int, int) {
    if sel.start == sel.end && sel.start > 0 {
        (prev_boundary(s, sel.start as int), sel.start as int)
    } else {
        (sel.start as int, sel.end as int)
    }
}

/// The bytes that a forward delete takes out: the selection, or the code
/// point after an empty one.
pub open spec fn delete_range(s: Seq<char>, sel: Selection) -> (int, int) {
    if sel.start == sel.end && sel.end < byte_len(s) {
        (sel.end as int, next_boundary(s, sel.end as int))
    } else {
        (sel.start as int, sel.end as int)
    }
}

/// `new` is `old` with the bytes [`a`, `b`) taken out.
pub open spec fn removed_from(new: Buffer, old: Buffer, a: int, b: int) -> bool {
    &&& new.chars() == text_removed(old.chars(), a, b)
    &&& new.spans() == spans_after_remove(old.spans(), a, b - a)
}

/// `new` is `old` with `t` put in at byte `o`.
pub open spec fn inserted_into(new: Buffer, old: Buffer, o: int, t: Seq<char>) -> bool {
    &&& new.chars() == text_inserted(old.chars(), o, t)
    &&& new.spans() == spans_after_insert(old.spans(), o, byte_len(t) as int)
}

/// `new` holds the same text and spans as `old`.
pub open spec fn same_buffer(new: Buffer, old: Buffer) -> bool {
    new.chars() == old.chars() && new.spans() == old.spans()
}

/// The byte offset where line `row` starts.
pub open spec fn row_start(s: Seq<char>, o: int) -> int {
    point_offset(s, point_row(s, o) as int, 0)
}

/// The byte offset where the text of the line holding `o` ends (before its
/// terminator), at a char boundary.
pub open spec fn row_end(s: Seq<char>, o: int) -> int {
    floor_boundary(
        s,
        point_offset(s, point_row(s, o) as int, line_byte_len(s, point_row(s, o) as int) as int),
    ) as int
}

/// The UTF-16 range `r` as a byte range in order.
pub open spec fn byte_range_of_utf16(s: Seq<char>, r: Range<usize>) -> (int, int) {
    let a = byte_of_utf16(s, r.start as int) as int;
    let b = byte_of_utf16(s, r.end as int) as int;
    if a <= b {
        (a, b)
    } else {
        (b, a)
    }
}

/// The goal that vertical movement starts from: none when text is selected.
pub open spec fn vertical_goal(sel: Selection) -> SelectionGoal {
    if sel.start != sel.end {
        SelectionGoal::Unset
    } else {
        sel.goal
    }
}

/// The moving end of `sel`.
pub open spec fn head_of(sel: Selection) -> usize {
    if sel.reversed {
        sel.start
    } else {
        sel.end
    }
}

/// The cursor after a vertical move to `o` that remembers column `col`.
pub open spec fn vertical_caret(o: int, col: int) -> Selection {
    Selection {
        start: o as usize,
        end: o as usize,
        reversed: false,
        goal: SelectionGoal::HorizontalPosition(col as usize),
    }
}

/// Where a left move puts the cursor: one code point left of an empty
/// selection (or nowhere new at the start), the start of a non-empty one.
pub open spec fn left_target(s: Seq<char>, sel: Selection) -> int {
    if sel.start == sel.end {
        match left_of(s, sel.start as int) {
            Some(v) => v,
            None => sel.start as int,
        }
    } else {
        sel.start as int
    }
}

/// Where a right move puts the cursor: one code point right of an empty
/// selection (or nowhere new at the end), the end of a non-empty one.
pub open spec fn right_target(s: Seq<char>, sel: Selection) -> int {
    if sel.start == sel.end {
        match right_of(s, sel.end as int) {
            Some(v) => v,
            None => sel.end as int,
        }
    } else {
        sel.end as int
    }
}

/// The selection that text from the input method replaces: the given UTF-16
/// range, else the marked range, else the current selection.
pub open spec fn input_selection(
    s: Seq<char>,
    sel: Selection,
    marked: Option<Selection>,
    range_utf16: Option<Range<usize>>,
) -> Selection {
    match range_utf16 {
        Some(r) => {
            let (a, b) = byte_range_of_utf16(s, r);
            Selection::new_spec(a as usize, b as usize)
        },
        None => match marked {
            Some(m) => clipped_selection(s, m),
            None => sel,
        },
    }
}

/// `a + b`, or `usize::MAX` when that does not fit.
pub open spec fn sat_add(a: int, b: int) -> int {
    if a + b <= usize::MAX {
        a + b
    } else {
        usize::MAX as int
    }
}

/// An editing session over one buffer.
pub struct Editor {
    buffer: Buffer,
    selection: Selection,
    marked_range: Option<Selection>,
}

impl Editor {
    /// The buffer.
    pub closed spec fn buf(&self) -> Buffer {
        self.buffer
    }

    /// The selection.
    pub closed spec fn sel(&self) -> Selection {
        self.selection
    }

    /// The input method's marked range, in bytes.
    pub closed spec fn marked(&self) -> Option<Selection> {
        self.marked_range
    }

    /// The buffer is well formed and the selection is in order, on char boundaries.
    pub open spec fn wf(&self) -> bool {
        &&& self.buf().wf()
        &&& self.sel().start <= self.sel().end
        &&& on_char_boundary(self.buf().chars(), self.sel().start as int)
        &&& on_char_boundary(self.buf().chars(), self.sel().end as int)
    }

    /// A session over an empty buffer with the cursor at its start.
    pub fn new() -> (e: Self)
        ensures
            e.wf(),
            e.buf().chars() == Seq::<char>::empty(),
            e.buf().spans() == Seq::<crate::format_span::FormatSpan>::empty(),
            e.sel() == caret(0),
            e.marked() is None,
    {
        let e = Self { buffer: Buffer::new(), selection: Selection::cursor(0), marked_range: None };
        proof {
            lemma_floor_boundary(e.buffer.chars(), 0);
        }
        e
    }

    pub fn buffer(&self) -> (b: &Buffer)
        ensures
            *b == self.buf(),
    {
        &self.buffer
    }

    pub fn selection(&self) -> (s: Selection)
        ensures
            s == self.sel(),
    {
        self.selection
    }

    /// Replaces the selection; its ends move to the char boundary at or before
    /// them and are put in order.
    pub fn change_selections(&mut self, selection: Selection)
        requires
            old(self).wf(),
        ensures
            final(self).wf(),
            final(self).buf() == old(self).buf(),
            final(self).sel() == clipped_selection(old(self).buf().chars(), selection),
            final(self).marked() == old(self).marked(),
    {
        let a = self.buffer.clip_offset(selection.start);
        let b = self.buffer.clip_offset(selection.end);
        if b < a {
            self.selection = Selection {
                start: b,
                end: a,
                reversed: !selection.reversed,
                goal: selection.goal,
            };
        } else {
            self.selection = Selection {
                start: a,
                end: b,
                reversed: selection.reversed,
                goal: selection.goal,
            };
        }
    }

    /// Puts the cursor at the char boundary at or before `offset`.
    pub fn move_to(&mut self, offset: usize)
        requires
            old(self).wf(),
        ensures
            final(self).wf(),
            final(self).buf() == old(self).buf(),
            final(self).sel() == caret(floor_boundary(old(self).buf().chars(), offset as int) as int),
            final(self).marked() == old(self).marked(),
    {
        let o = self.buffer.clip_offset(offset);
        self.selection = Selection::cursor(o);
    }

    /// Moves the selection's moving end to the char boundary at or before `offset`.
    pub fn select_to(&mut self, offset: usize)
        requires
            old(self).wf(),
        ensures
            final(self).wf(),
            final(self).buf() == old(self).buf(),
            final(self).sel() == selection_to(
                old(self).sel(),
                floor_boundary(old(self).buf().chars(), offset as int) as usize,
            ),
            final(self).marked() == old(self).marked(),
    {
        let o = self.buffer.clip_offset(offset);
        if self.selection.reversed {
            self.selection.start = o;
        } else {
            self.selection.end = o;
        }
        if self.selection.end < self.selection.start {
            let start = self.selection.start;
            let end = self.selection.end;
            self.selection.start = end;
            self.selection.end = start;
            self.selection.reversed = !self.selection.reversed;
        }
        self.selection.goal = SelectionGoal::Unset;
    }

    /// Types `text` over the selection; the cursor lands after it.
    pub fn handle_input(&mut self, text: &str)
        requires
            old(self).wf(),
        ensures
            final(self).wf(),
            ({
                let (a, b) = (old(self).sel().start as int, old(self).sel().end as int);
                let mid = text_removed(old(self).buf().chars(), a, b);
                &&& final(self).buf().chars() == text_inserted(mid, a, text@)
                &&& final(self).buf().spans() == spans_after_insert(
                    spans_after_remove(old(self).buf().spans(), a, b - a),
                    a,
                    byte_len(text@) as int,
                )
                &&& final(self).sel() == caret(a + byte_len(text@))
            }),
            final(self).marked() == old(self).marked(),
    {
        let range = self.selection.range();
        let start = range.start;
        proof {
            let s = self.buffer.chars();
            lemma_step_boundaries(s, range.end as int);
            lemma_removed_len(s, range.start as int, range.end as int);
            lemma_removed_boundary(s, range.start as int, range.end as int);
            let mid = text_removed(s, range.start as int, range.end as int);
            lemma_inserted_len(mid, start as int, text@);
            lemma_inserted_boundary(mid, start as int, text@);
        }
        self.buffer.replace(range, text);
        let n = text.len();
        proof {
            crate::offsets::lemma_encode_len(text@);
        }
        self.selection = Selection::cursor(start + n);
    }

    /// Takes out the selection, or the code point before the cursor.
    pub fn backspace(&mut self)
        requires
            old(self).wf(),
        ensures
            final(self).wf(),
            ({
                let (a, b) = backspace_range(old(self).buf().chars(), old(self).sel());
                if a < b {
                    removed_from(final(self).buf(), old(self).buf(), a, b) && final(self).sel()
                        == caret(a)
                } else {
                    final(self).buf() == old(self).buf() && final(self).sel() == without_goal(
                        old(self).sel(),
                    )
                }
            }),
            final(self).marked() == old(self).marked(),
    {
        let sel = self.selection;
        proof {
            lemma_step_boundaries(self.buffer.chars(), sel.start as int);
            lemma_step_boundaries(self.buffer.chars(), sel.end as int);
        }
        if sel.is_empty() && sel.start > 0 {
            let c = self.buffer.byte_to_char(sel.start);
            let prev = self.buffer.char_to_byte(c - 1);
            self.selection = Selection::new(prev, sel.start);
        }
        if !self.selection.is_empty() {
            let start = self.selection.start;
            proof {
                lemma_removed_boundary(
                    self.buffer.chars(),
                    self.selection.start as int,
                    self.selection.end as int,
                );
            }
            self.buffer.remove(self.selection.range());
            self.selection = Selection::cursor(start);
        }
        self.selection.goal = SelectionGoal::Unset;
    }

    /// Takes out the selection, or the code point after the cursor.
    pub fn delete(&mut self)
        requires
            old(self).wf(),
        ensures
            final(self).wf(),
            ({
                let (a, b) = delete_range(old(self).buf().chars(), old(self).sel());
                if a < b {
                    removed_from(final(self).buf(), old(self).buf(), a, b) && final(self).sel()
                        == caret(a)
                } else {
                    final(self).buf() == old(self).buf() && final(self).sel() == without_goal(
                        old(self).sel(),
                    )
                }
            }),
            final(self).marked() == old(self).marked(),
    {
        let sel = self.selection;
        let buffer_len = self.buffer.len();
        proof {
            lemma_step_boundaries(self.buffer.chars(), sel.start as int);
            lemma_step_boundaries(self.buffer.chars(), sel.end as int);
        }
        if sel.is_empty() && sel.end < buffer_len {
            let c = self.buffer.byte_to_char(sel.end);
            let next = self.buffer.char_to_byte(c + 1);
            self.selection = Selection::new(sel.end, next);
        }
        if !self.selection.is_empty() {
            let start = self.selection.start;
            proof {
                lemma_removed_boundary(
                    self.buffer.chars(),
                    self.selection.start as int,
                    self.selection.end as int,
                );
            }
            self.buffer.remove(self.selection.range());
            self.selection = Selection::cursor(start);
        }
        self.selection.goal = SelectionGoal::Unset;
    }

    /// Takes out the selection, if any, and puts a line feed in at its start.
    pub fn newline(&mut self)
        requires
            old(self).wf(),
        ensures
            final(self).wf(),
            ({
                let (a, b) = (old(self).sel().start as int, old(self).sel().end as int);
                let mid = text_removed(old(self).buf().chars(), a, b);
                &&& final(self).buf().chars() == text_inserted(mid, a, seq!['\n'])
                &&& final(self).buf().spans() == spans_after_insert(
                    spans_after_remove(old(self).buf().spans(), a, b - a),
                    a,
                    1,
                )
                &&& final(self).sel() == caret(a + 1)
            }),
            final(self).marked() == old(self).marked(),
    {
        let nl = "\n";
        proof {
            reveal_strlit("\n");
            assert(nl@ =~= seq!['\n']);
            crate::offsets::lemma_measure_single('\n', crate::offsets::utf8_units());
            assert(byte_len(nl@) == 1);
        }
        self.handle_input(nl);
    }

    /// Takes out the text from the start of the line to the cursor.
    pub fn delete_to_beginning_of_line(&mut self)
        requires
            old(self).wf(),
        ensures
            final(self).wf(),
            ({
                let o = old(self).sel().start as int;
                let ls = row_start(old(self).buf().chars(), o);
                if o == ls {
                    final(self).buf() == old(self).buf() && final(self).sel() == old(self).sel()
                } else {
                    removed_from(final(self).buf(), old(self).buf(), ls, o) && final(self).sel()
                        == caret(ls)
                }
            }),
            final(self).marked() == old(self).marked(),
    {
        let cursor = self.selection.start;
        let point = self.buffer.offset_to_point(cursor);
        let line_start = self.buffer.point_to_offset(TextPoint::new(point.row, 0));
        proof {
            let s = self.buffer.chars();
            lemma_step_boundaries(s, cursor as int);
            crate::lines::lemma_row_of_byte(s, cursor as int);
            let row = point.row as nat;
            crate::lines::lemma_line_start_byte_monotone(s, row, row + 1);
            crate::lines::lemma_line_start_bounds(s, row, row);
            crate::offsets::lemma_widths_positive();
            crate::offsets::lemma_index_of_offset(
                s,
                crate::lines::line_start(s, row) as int,
                crate::offsets::utf8_units(),
            );
        }
        if cursor == line_start {
            return;
        }
        self.selection = Selection::new(line_start, cursor);
        self.backspace();
    }

    /// Takes out the text from the cursor to the end of the line's text.
    pub fn delete_to_end_of_line(&mut self)
        requires
            old(self).wf(),
        ensures
            final(self).wf(),
            ({
                let o = old(self).sel().start as int;
                let le = row_end(old(self).buf().chars(), o);
                if o >= le {
                    final(self).buf() == old(self).buf() && final(self).sel() == old(self).sel()
                } else {
                    removed_from(final(self).buf(), old(self).buf(), o, le) && final(self).sel()
                        == caret(o)
                }
            }),
            final(self).marked() == old(self).marked(),
    {
        let cursor = self.selection.start;
        let point = self.buffer.offset_to_point(cursor);
        let line_len = self.buffer.line_len(point.row);
        let line_end = self.buffer.clip_offset(
            self.buffer.point_to_offset(TextPoint::new(point.row, line_len)),
        );
        if cursor >= line_end {
            return;
        }
        self.selection = Selection::new(cursor, line_end);
        self.delete();
    }

    /// Moves the cursor one line up, remembering the column it aims for.
    pub fn move_up(&mut self)
        requires
            old(self).wf(),
        ensures
            final(self).wf(),
            final(self).buf() == old(self).buf(),
            ({
                let s = old(self).buf().chars();
                let head = head_of(old(self).sel()) as int;
                let goal = vertical_goal(old(self).sel());
                final(self).sel() == vertical_caret(up_of(s, head, goal), goal_column(s, head, goal))
            }),
            final(self).marked() == old(self).marked(),
    {
        let cursor = self.selection.head();
        let goal = if !self.selection.is_empty() {
            SelectionGoal::Unset
        } else {
            self.selection.goal
        };
        let (new_offset, new_goal) = up(&self.buffer, cursor, goal);
        self.selection = Selection { start: new_offset, end: new_offset, reversed: false, goal: new_goal };
    }

    /// Moves the cursor one line down, remembering the column it aims for.
    pub fn move_down(&mut self)
        requires
            old(self).wf(),
        ensures
            final(self).wf(),
            final(self).buf() == old(self).buf(),
            ({
                let s = old(self).buf().chars();
                let head = head_of(old(self).sel()) as int;
                let goal = vertical_goal(old(self).sel());
                final(self).sel() == vertical_caret(down_of(s, head, goal), goal_column(s, head, goal))
            }),
            final(self).marked() == old(self).marked(),
    {
        let cursor = self.selection.head();
        let goal = if !self.selection.is_empty() {
            SelectionGoal::Unset
        } else {
            self.selection.goal
        };
        let (new_offset, new_goal) = down(&self.buffer, cursor, goal);
        self.selection = Selection { start: new_offset, end: new_offset, reversed: false, goal: new_goal };
    }

    /// Moves the cursor one code point left; a selection collapses to its start.
    pub fn move_left(&mut self)
        requires
            old(self).wf(),
        ensures
            final(self).wf(),
            final(self).buf() == old(self).buf(),
            final(self).sel() == caret(left_target(old(self).buf().chars(), old(self).sel())),
            final(self).marked() == old(self).marked(),
    {
        let cursor = if self.selection.is_empty() {
            match left(&self.buffer, self.selection.start) {
                Some(v) => v,
                None => self.selection.start,
            }
        } else {
            self.selection.start
        };
        self.selection = Selection::cursor(cursor);
    }

    /// Moves the cursor one code point right; a selection collapses to its end.
    pub fn move_right(&mut self)
        requires
            old(self).wf(),
        ensures
            final(self).wf(),
            final(self).buf() == old(self).buf(),
            final(self).sel() == caret(right_target(old(self).buf().chars(), old(self).sel())),
            final(self).marked() == old(self).marked(),
    {
        let cursor = if self.selection.is_empty() {
            match right(&self.buffer, self.selection.end) {
                Some(v) => v,
                None => self.selection.end,
            }
        } else {
            self.selection.end
        };
        self.selection = Selection::cursor(cursor);
    }

    /// Toggles attribute `a` over the selection; nothing happens without one.
    pub fn toggle(&mut self, a: Attribute)
        requires
            old(self).wf(),
        ensures
            final(self).wf(),
            final(self).buf().chars() == old(self).buf().chars(),
            final(self).buf().spans() == toggled(
                old(self).buf().spans(),
                a,
                old(self).sel().start as int,
                old(self).sel().end as int,
            ),
            final(self).sel() == old(self).sel(),
            final(self).marked() == old(self).marked(),
    {
        if self.selection.is_empty() {
            return;
        }
        proof {
            lemma_step_boundaries(self.buffer.chars(), self.selection.end as int);
        }
        self.buffer.toggle(self.selection.range(), a);
    }

    pub fn toggle_bold(&mut self)
        requires
            old(self).wf(),
        ensures
            final(self).wf(),
            final(self).buf().chars() == old(self).buf().chars(),
            final(self).buf().spans() == toggled(
                old(self).buf().spans(),
                Attribute::Bold,
                old(self).sel().start as int,
                old(self).sel().end as int,
            ),
            final(self).sel() == old(self).sel(),
            final(self).marked() == old(self).marked(),
    {
        self.toggle(Attribute::Bold)
    }

    pub fn toggle_italic(&mut self)
        requires
            old(self).wf(),
        ensures
            final(self).wf(),
            final(self).buf().chars() == old(self).buf().chars(),
            final(self).buf().spans() == toggled(
                old(self).buf().spans(),
                Attribute::Italic,
                old(self).sel().start as int,
                old(self).sel().end as int,
            ),
            final(self).sel() == old(self).sel(),
            final(self).marked() == old(self).marked(),
    {
        self.toggle(Attribute::Italic)
    }

    pub fn toggle_underline(&mut self)
        requires
            old(self).wf(),
        ensures
            final(self).wf(),
            final(self).buf().chars() == old(self).buf().chars(),
            final(self).buf().spans() == toggled(
                old(self).buf().spans(),
                Attribute::Underline,
                old(self).sel().start as int,
                old(self).sel().end as int,
            ),
            final(self).sel() == old(self).sel(),
            final(self).marked() == old(self).marked(),
    {
        self.toggle(Attribute::Underline)
    }

    /// A click at byte `position`: extends the selection with `shift`, else
    /// puts the cursor there.
    pub fn mouse_left_down(&mut self, position: usize, shift: bool)
        requires
            old(self).wf(),
        ensures
            final(self).wf(),
            final(self).buf() == old(self).buf(),
            final(self).sel() == if shift {
                selection_to(
                    old(self).sel(),
                    floor_boundary(old(self).buf().chars(), position as int) as usize,
                )
            } else {
                caret(floor_boundary(old(self).buf().chars(), position as int) as int)
            },
            final(self).marked() == old(self).marked(),
    {
        if shift {
            self.select_to(position);
        } else {
            self.move_to(position);
        }
    }

    /// A drag to byte `position` extends the selection.
    pub fn mouse_dragged(&mut self, position: usize)
        requires
            old(self).wf(),
        ensures
            final(self).wf(),
            final(self).buf() == old(self).buf(),
            final(self).sel() == selection_to(
                old(self).sel(),
                floor_boundary(old(self).buf().chars(), position as int) as usize,
            ),
            final(self).marked() == old(self).marked(),
    {
        self.select_to(position);
    }

    /// The text of a UTF-16 range, or `None` when its ends are out of order.
    pub fn text_for_range(&self, range_utf16: Range<usize>) -> (r: Option<String>)
        requires
            self.wf(),
        ensures
            ({
                let s = self.buf().chars();
                let a = byte_of_utf16(s, range_utf16.start as int) as int;
                let b = byte_of_utf16(s, range_utf16.end as int) as int;
                match r {
                    Some(t) => a <= b && t@ == s.subrange(
                        crate::offsets::char_at_byte(s, a) as int,
                        crate::offsets::char_at_byte(s, b) as int,
                    ),
                    None => a > b,
                }
            }),
    {
        let a = self.buffer.utf16_to_byte(range_utf16.start);
        let b = self.buffer.utf16_to_byte(range_utf16.end);
        proof {
            lemma_byte_of_utf16_boundary(self.buffer.chars(), range_utf16.end as int);
        }
        if a <= b {
            Some(self.buffer.slice(Range { start: a, end: b }))
        } else {
            None
        }
    }

    /// The selection in UTF-16 code units, and whether it is reversed.
    pub fn selected_text_range(&self) -> (r: (Range<usize>, bool))
        ensures
            r.0.start == utf16_of_byte(self.buf().chars(), self.sel().start as int),
            r.0.end == utf16_of_byte(self.buf().chars(), self.sel().end as int),
            r.1 == self.sel().reversed,
    {
        let start = self.buffer.byte_to_utf16(self.selection.start);
        let end = self.buffer.byte_to_utf16(self.selection.end);
        (Range { start, end }, self.selection.reversed)
    }

    /// The marked range in UTF-16 code units.
    pub fn marked_text_range(&self) -> (r: Option<Range<usize>>)
        ensures
            match self.marked() {
                Some(m) => r == Some(
                    Range {
                        start: utf16_of_byte(self.buf().chars(), m.start as int) as usize,
                        end: utf16_of_byte(self.buf().chars(), m.end as int) as usize,
                    },
                ),
                None => r is None,
            },
    {
        match self.marked_range {
            Some(m) => {
                let start = self.buffer.byte_to_utf16(m.start);
                let end = self.buffer.byte_to_utf16(m.end);
                Some(Range { start, end })
            },
            None => None,
        }
    }

    pub fn unmark_text(&mut self)
        ensures
            final(self).buf() == old(self).buf(),
            final(self).sel() == old(self).sel(),
            final(self).marked() is None,
    {
        self.marked_range = None;
    }

    /// The bytes of a UTF-16 range, in order; both ends are char boundaries.
    fn range_from_utf16(&self, range_utf16: &Range<usize>) -> (r: (usize, usize))
        ensures
            (r.0 as int, r.1 as int) == byte_range_of_utf16(self.buf().chars(), *range_utf16),
            r.0 <= r.1,
            on_char_boundary(self.buf().chars(), r.0 as int),
            on_char_boundary(self.buf().chars(), r.1 as int),
    {
        let a = self.buffer.utf16_to_byte(range_utf16.start);
        let b = self.buffer.utf16_to_byte(range_utf16.end);
        proof {
            lemma_byte_of_utf16_boundary(self.buffer.chars(), range_utf16.start as int);
            lemma_byte_of_utf16_boundary(self.buffer.chars(), range_utf16.end as int);
        }
        if a <= b {
            (a, b)
        } else {
            (b, a)
        }
    }

    /// Text from the input method replaces the given UTF-16 range, else the
    /// marked range, else the selection; the marked range goes away.
    pub fn replace_text_in_range(&mut self, range_utf16: Option<Range<usize>>, new_text: &str)
        requires
            old(self).wf(),
        ensures
            final(self).wf(),
            ({
                let sel = input_selection(
                    old(self).buf().chars(),
                    old(self).sel(),
                    old(self).marked(),
                    range_utf16,
                );
                let (a, b) = (sel.start as int, sel.end as int);
                &&& final(self).buf().chars() == text_inserted(
                    text_removed(old(self).buf().chars(), a, b),
                    a,
                    new_text@,
                )
                &&& final(self).buf().spans() == spans_after_insert(
                    spans_after_remove(old(self).buf().spans(), a, b - a),
                    a,
                    byte_len(new_text@) as int,
                )
                &&& final(self).sel() == caret(a + byte_len(new_text@))
            }),
            final(self).marked() is None,
    {
        match range_utf16 {
            Some(r) => {
                let (a, b) = self.range_from_utf16(&r);
                self.selection = Selection::new(a, b);
            },
            None => match self.marked_range {
                Some(m) => self.change_selections(m),
                None => {},
            },
        }
        self.marked_range = None;
        self.handle_input(new_text);
    }

    /// Text from the input method replaces the given UTF-16 range (else the
    /// selection); `new_selected_range`, in UTF-16 code units from the start
    /// of the new text, becomes the marked range.
    pub fn replace_and_mark_text_in_range(
        &mut self,
        range_utf16: Option<Range<usize>>,
        new_text: &str,
        new_selected_range: Option<Range<usize>>,
    )
        requires
            old(self).wf(),
        ensures
            final(self).wf(),
            ({
                let sel = input_selection(
                    old(self).buf().chars(),
                    old(self).sel(),
                    None,
                    range_utf16,
                );
                let (a, b) = (sel.start as int, sel.end as int);
                let s = final(self).buf().chars();
                &&& s == text_inserted(text_removed(old(self).buf().chars(), a, b), a, new_text@)
                &&& final(self).buf().spans() == spans_after_insert(
                    spans_after_remove(old(self).buf().spans(), a, b - a),
                    a,
                    byte_len(new_text@) as int,
                )
                &&& final(self).sel() == caret(a + byte_len(new_text@))
                &&& final(self).marked() == match new_selected_range {
                    Some(m) => Some(
                        Selection::new_spec(
                            byte_of_utf16(s, sat_add(utf16_of_byte(s, a) as int, m.start as int))
                                as usize,
                            byte_of_utf16(s, sat_add(utf16_of_byte(s, a) as int, m.end as int))
                                as usize,
                        ),
                    ),
                    None => None,
                }
            }),
    {
        match range_utf16 {
            Some(r) => {
                let (a, b) = self.range_from_utf16(&r);
                self.selection = Selection::new(a, b);
            },
            None => {},
        }
        let start = self.selection.start;
        self.handle_input(new_text);
        self.marked_range = match new_selected_range {
            Some(m) => {
                let base = self.buffer.byte_to_utf16(start);
                let from = if m.start <= usize::MAX - base {
                    base + m.start
                } else {
                    usize::MAX
                };
                let to = if m.end <= usize::MAX - base {
                    base + m.end
                } else {
                    usize::MAX
                };
                Some(Selection::new(self.buffer.utf16_to_byte(from), self.buffer.utf16_to_byte(to)))
            },
            None => None,
        };
    }
}

} // verus!
