//! Cursor movement: one code point left or right, one line up or down.

use vstd::prelude::*;
use crate::buffer::Buffer;
use crate::lines::lf_count;
use crate::offsets::{
    byte_len, byte_offset, char_at_byte, lemma_index_at_bounds, lemma_index_of_offset,
    lemma_offset_basics, lemma_widths_positive, on_char_boundary, utf8_units,
};
use crate::selection::SelectionGoal;
use crate::text::{floor_boundary, line_byte_len, point_column, point_offset, point_row, TextPoint};

verus! {

/// The char boundary just before boundary `o`.
pub open spec fn prev_boundary(s: Seq<char>, o: int) -> int {
    byte_offset(s, char_at_byte(s, o) - 1) as int
}

/// The char boundary just after boundary `o`.
pub open spec fn next_boundary(s: Seq<char>, o: int) -> int {
    byte_offset(s, char_at_byte(s, o) + 1int) as int
}

/// One code point left of `o`: back within the line, or to the end of the
/// line above from the start of a line; nothing at the start of the text.
pub open spec fn left_of(s: Seq<char>, o: int) -> Option<int> {
    let row = point_row(s, o);
    if o == 0 {
        None
    } else if point_column(s, o) > 0 {
        Some(prev_boundary(s, o))
    } else if row > 0 {
        Some(floor_boundary(s, point_offset(s, row - 1, line_byte_len(s, row - 1) as int)) as int)
    } else {
        None
    }
}

/// One code point right of `o`: on within the line, or to the start of the
/// line below from the end of a line; nothing at the end of the text.
pub open spec fn right_of(s: Seq<char>, o: int) -> Option<int> {
    let row = point_row(s, o);
    if o >= byte_len(s) {
        None
    } else if point_column(s, o) < line_byte_len(s, row as int) {
        Some(next_boundary(s, o))
    } else if row < lf_count(s) {
        Some(point_offset(s, row + 1int, 0))
    } else {
        None
    }
}

/// The column vertical movement aims for: the goal's, or else the current one.
pub open spec fn goal_column(s: Seq<char>, o: int, goal: SelectionGoal) -> int {
    match goal {
        SelectionGoal::Unset => point_column(s, o),
        SelectionGoal::HorizontalPosition(c) => c as int,
    }
}

/// The smaller of two integers.
pub open spec fn min(a: int, b: int) -> int {
    if a < b {
        a
    } else {
        b
    }
}

/// One line up from `o`, at the goal column clamped to that line (and to the
/// char boundary at or before it); the start of the text from the first line.
pub open spec fn up_of(s: Seq<char>, o: int, goal: SelectionGoal) -> int {
    let row = point_row(s, o);
    if row == 0 {
        point_offset(s, 0, 0)
    } else {
        let col = min(goal_column(s, o, goal), line_byte_len(s, row - 1) as int);
        floor_boundary(s, point_offset(s, row - 1, col)) as int
    }
}

/// One line down from `o`, at the goal column clamped to that line (and to
/// the char boundary at or before it); the end of the line from the last line.
pub open spec fn down_of(s: Seq<char>, o: int, goal: SelectionGoal) -> int {
    let row = point_row(s, o);
    if row >= lf_count(s) {
        floor_boundary(s, point_offset(s, row as int, line_byte_len(s, row as int) as int)) as int
    } else {
        let col = min(goal_column(s, o, goal), line_byte_len(s, row + 1int) as int);
        floor_boundary(s, point_offset(s, row + 1int, col)) as int
    }
}

/// The char boundary before and after a boundary are boundaries of the text.
pub proof fn lemma_step_boundaries(s: Seq<char>, o: int)
    requires
        on_char_boundary(s, o),
    ensures
        o <= byte_len(s),
        s.len() <= byte_len(s),
        o > 0 ==> char_at_byte(s, o) >= 1 && on_char_boundary(s, prev_boundary(s, o)) && 0
            <= prev_boundary(s, o) < o,
        o < byte_len(s) ==> char_at_byte(s, o) + 1 <= s.len() && on_char_boundary(
            s,
            next_boundary(s, o),
        ) && o < next_boundary(s, o) <= byte_len(s),
{
    lemma_widths_positive();
    let w = utf8_units();
    lemma_index_at_bounds(s, o, w);
    let c = char_at_byte(s, o) as int;
    lemma_offset_basics(s, 0, w);
    crate::offsets::lemma_measure_ge_len(s, w);
    crate::offsets::lemma_offset_monotone(s, c, s.len() as int, w);
    if o > 0 {
        assert(c >= 1);
        lemma_index_of_offset(s, c - 1, w);
        crate::offsets::lemma_offset_monotone(s, c - 1, c, w);
    }
    if o < byte_len(s) {
        lemma_index_of_offset(s, c + 1, w);
        crate::offsets::lemma_offset_monotone(s, c, c + 1, w);
        crate::offsets::lemma_offset_monotone(s, c + 1, s.len() as int, w);
    }
}

/// Moves one code point left, wrapping to the end of the previous line.
pub fn left(buffer: &Buffer, offset: usize) -> (r: Option<usize>)
    requires
        on_char_boundary(buffer.chars(), offset as int),
    ensures
        match r {
            Some(v) => left_of(buffer.chars(), offset as int) == Some(v as int) && on_char_boundary(
                buffer.chars(),
                v as int,
            ) && v <= byte_len(buffer.chars()),
            None => left_of(buffer.chars(), offset as int) is None,
        },
{
    if offset == 0 {
        return None;
    }
    proof {
        lemma_step_boundaries(buffer.chars(), offset as int);
    }
    let point = buffer.offset_to_point(offset);
    if point.column > 0 {
        let c = buffer.byte_to_char(offset);
        Some(buffer.char_to_byte(c - 1))
    } else if point.row > 0 {
        let prev_row = point.row - 1;
        let prev_line_len = buffer.line_len(prev_row);
        let end = buffer.point_to_offset(TextPoint::new(prev_row, prev_line_len));
        Some(buffer.clip_offset(end))
    } else {
        None
    }
}

/// Moves one code point right, wrapping to the start of the next line.
pub fn right(buffer: &Buffer, offset: usize) -> (r: Option<usize>)
    requires
        on_char_boundary(buffer.chars(), offset as int),
    ensures
        match r {
            Some(v) => right_of(buffer.chars(), offset as int) == Some(v as int)
                && on_char_boundary(buffer.chars(), v as int) && v <= byte_len(buffer.chars()),
            None => right_of(buffer.chars(), offset as int) is None,
        },
{
    if offset >= buffer.len() {
        return None;
    }
    proof {
        lemma_step_boundaries(buffer.chars(), offset as int);
    }
    let point = buffer.offset_to_point(offset);
    if point.column < buffer.line_len(point.row) {
        let c = buffer.byte_to_char(offset);
        Some(buffer.char_to_byte(c + 1))
    } else if point.row < buffer.max_point().row {
        let next_row = point.row + 1;
        let start = buffer.point_to_offset(TextPoint::new(next_row, 0));
        proof {
            crate::lines::lemma_line_start_bounds(buffer.chars(), next_row as nat, next_row as nat);
            lemma_widths_positive();
            lemma_index_of_offset(
                buffer.chars(),
                crate::lines::line_start(buffer.chars(), next_row as nat) as int,
                utf8_units(),
            );
            crate::offsets::lemma_offset_monotone(
                buffer.chars(),
                crate::lines::line_start(buffer.chars(), next_row as nat) as int,
                buffer.chars().len() as int,
                utf8_units(),
            );
            crate::lines::lemma_line_start_byte_monotone(buffer.chars(), next_row as nat, next_row as nat + 1);
            if (next_row as nat) < lf_count(buffer.chars()) {
                crate::text::lemma_line_ends_with_lf(buffer.chars(), next_row as nat);
            }
        }
        Some(start)
    } else {
        None
    }
}

/// The goal's column, or the current column when there is no goal.
fn resolve_goal(buffer: &Buffer, point: TextPoint, goal: SelectionGoal) -> (c: usize)
    ensures
        c == match goal {
            SelectionGoal::Unset => point.column,
            SelectionGoal::HorizontalPosition(col) => col,
        },
{
    match goal {
        SelectionGoal::Unset => point.column,
        SelectionGoal::HorizontalPosition(col) => col,
    }
}

/// Moves one line up, keeping the goal column where the line allows.
/// Returns the new offset and the goal to remember.
pub fn up(buffer: &Buffer, offset: usize, goal: SelectionGoal) -> (r: (usize, SelectionGoal))
    ensures
        r.0 == up_of(buffer.chars(), offset as int, goal),
        r.1 == SelectionGoal::HorizontalPosition(
            goal_column(buffer.chars(), offset as int, goal) as usize,
        ),
        on_char_boundary(buffer.chars(), r.0 as int),
        r.0 <= byte_len(buffer.chars()),
{
    let current_point = buffer.offset_to_point(offset);
    let goal_column = resolve_goal(buffer, current_point, goal);
    if current_point.row == 0 {
        let new_offset = buffer.point_to_offset(TextPoint::new(0, 0));
        proof {
            lemma_widths_positive();
            lemma_index_of_offset(buffer.chars(), 0, utf8_units());
            lemma_offset_basics(buffer.chars(), 0, utf8_units());
        }
        return (new_offset, SelectionGoal::HorizontalPosition(goal_column));
    }
    let prev_row = current_point.row - 1;
    let prev_line_len = buffer.line_len(prev_row);
    let new_column = if goal_column < prev_line_len {
        goal_column
    } else {
        prev_line_len
    };
    let new_offset = buffer.point_to_offset(TextPoint::new(prev_row, new_column));
    (buffer.clip_offset(new_offset), SelectionGoal::HorizontalPosition(goal_column))
}

/// Moves one line down, keeping the goal column where the line allows.
/// Returns the new offset and the goal to remember.
pub fn down(buffer: &Buffer, offset: usize, goal: SelectionGoal) -> (r: (usize, SelectionGoal))
    ensures
        r.0 == down_of(buffer.chars(), offset as int, goal),
        r.1 == SelectionGoal::HorizontalPosition(
            goal_column(buffer.chars(), offset as int, goal) as usize,
        ),
        on_char_boundary(buffer.chars(), r.0 as int),
        r.0 <= byte_len(buffer.chars()),
{
    let current_point = buffer.offset_to_point(offset);
    let line_count = buffer.line_count();
    let goal_column = resolve_goal(buffer, current_point, goal);
    if current_point.row >= line_count - 1 {
        let last_line_len = buffer.line_len(current_point.row);
        let new_offset = buffer.point_to_offset(TextPoint::new(current_point.row, last_line_len));
        return (buffer.clip_offset(new_offset), SelectionGoal::HorizontalPosition(goal_column));
    }
    let next_row = current_point.row + 1;
    let next_line_len = buffer.line_len(next_row);
    let new_column = if goal_column < next_line_len {
        goal_column
    } else {
        next_line_len
    };
    let new_offset = buffer.point_to_offset(TextPoint::new(next_row, new_column));
    (buffer.clip_offset(new_offset), SelectionGoal::HorizontalPosition(goal_column))
}

} // verus!
