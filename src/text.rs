//! Byte-addressed text storage on a rope, with line/column and UTF-16
//! conversions.

use vstd::prelude::*;
use ropey::Rope;
use crate::lines::{
    lemma_line_start_byte_monotone, lemma_row_of_byte, lf_count, line_count, line_start,
    line_start_byte, line_text, raw_line, row_of_byte,
};
use crate::offsets::{
    byte_len, byte_offset, char_at_byte, char_at_utf16, lemma_index_at_bounds,
    lemma_index_at_monotone, lemma_index_of_offset, lemma_measure_concat, lemma_measure_subrange, lemma_offset_basics, lemma_offset_monotone,
    lemma_widths_positive, on_char_boundary, on_utf16_boundary, utf16_len, utf16_offset, utf16_units, utf8_units,
};
use crate::rope::{
    rope_byte_to_char, rope_byte_to_line, rope_char, rope_char_to_byte, rope_char_to_utf16_cu,
    rope_chars, rope_from_str, rope_insert, rope_len_bytes, rope_len_chars, rope_len_lines,
    rope_line_to_byte, rope_new, rope_remove, rope_slice, rope_utf16_cu_to_char,
};

verus! {

/// A position in the text: a line index and a byte offset within that line.
#[derive(Copy, Clone, Debug, Default, PartialEq, Eq, Structural, Hash, PartialOrd, Ord)]
pub struct TextPoint {
    pub row: usize,
    pub column: usize,
}

impl TextPoint {
    pub fn new(row: usize, column: usize) -> (p: Self)
        ensures
            p.row == row,
            p.column == column,
    {
        Self { row, column }
    }

    pub fn zero() -> (p: Self)
        ensures
            p.row == 0,
            p.column == 0,
    {
        Self { row: 0, column: 0 }
    }
}

/// `offset`, clamped to the end of `s`.
pub open spec fn clamp_offset(s: Seq<char>, offset: int) -> int {
    if offset < byte_len(s) {
        offset
    } else {
        byte_len(s) as int
    }
}

/// Row of the point at `offset` (clamped to the text).
pub open spec fn point_row(s: Seq<char>, offset: int) -> nat {
    row_of_byte(s, clamp_offset(s, offset))
}

/// Column, in bytes, of the point at `offset` (clamped to the text).
pub open spec fn point_column(s: Seq<char>, offset: int) -> int {
    clamp_offset(s, offset) - line_start_byte(s, point_row(s, offset))
}

/// UTF-16 offset of the char that holds byte `b` (clamped to the text).
pub open spec fn utf16_of_byte(s: Seq<char>, b: int) -> nat {
    utf16_offset(s, char_at_byte(s, clamp_offset(s, b)) as int)
}

/// Byte offset of the char that holds UTF-16 code unit `u` (clamped to the text).
pub open spec fn byte_of_utf16(s: Seq<char>, u: int) -> nat {
    let v = if u < utf16_len(s) {
        u
    } else {
        utf16_len(s) as int
    };
    byte_offset(s, char_at_utf16(s, v) as int)
}

/// Byte length of line `row` without its line feed (a `\r` before the line
/// feed counts as part of the line).
pub open spec fn full_line_len(s: Seq<char>, row: nat) -> int {
    line_start_byte(s, row + 1) - line_start_byte(s, row) - if row < lf_count(s) {
        1int
    } else {
        0int
    }
}

/// The row clamped to the last line.
pub open spec fn clamp_row(s: Seq<char>, row: int) -> nat {
    if 0 <= row < line_count(s) {
        row as nat
    } else {
        lf_count(s)
    }
}

/// Byte offset of the point (`row`, `column`): the row clamps to the last line,
/// the column to that line's byte length (its line feed left out).
pub open spec fn point_offset(s: Seq<char>, row: int, column: int) -> int {
    let r = clamp_row(s, row);
    let full = full_line_len(s, r);
    line_start_byte(s, r) + if column < full {
        column
    } else {
        full
    }
}

/// Byte length of the text of line `row` (no terminator); 0 past the last line.
pub open spec fn line_byte_len(s: Seq<char>, row: int) -> nat {
    if 0 <= row < line_count(s) {
        byte_len(line_text(s, row as nat))
    } else {
        0
    }
}

/// `s` with `text` put in before the char that holds byte `offset`.
pub open spec fn text_inserted(s: Seq<char>, offset: int, text: Seq<char>) -> Seq<char> {
    let c = char_at_byte(s, offset) as int;
    s.take(c) + text + s.skip(c)
}

/// `s` without the chars from the one that holds byte `start` up to the one
/// that holds byte `end`.
pub open spec fn text_removed(s: Seq<char>, start: int, end: int) -> Seq<char> {
    s.take(char_at_byte(s, start) as int) + s.skip(char_at_byte(s, end) as int)
}

/// A byte-indexed mutable text, stored in a rope.
#[derive(Clone, Debug)]
pub struct TextBuffer {
    rope: Rope,
}

impl View for TextBuffer {
    type V = Seq<char>;

    closed spec fn view(&self) -> Seq<char> {
        rope_chars(self.rope)
    }
}

impl TextBuffer {
    pub fn new() -> (t: Self)
        ensures
            t@ == Seq::<char>::empty(),
    {
        Self { rope: rope_new() }
    }

    /// Length of the text in bytes.
    pub fn len(&self) -> (n: usize)
        ensures
            n == byte_len(self@),
    {
        rope_len_bytes(&self.rope)
    }

    /// Byte length of the text of line `row`, 0 for a row past the last.
    pub fn line_len(&self, row: usize) -> (n: usize)
        ensures
            n == line_byte_len(self@, row as int),
    {
        match self.line_chars(row) {
            Some((start, end)) => {
                proof {
                    lemma_widths_positive();
                    lemma_offset_monotone(self@, start as int, end as int, utf8_units());
                    lemma_measure_subrange(self@, start as int, end as int, utf8_units());
                }
                let a = rope_char_to_byte(&self.rope, start);
                let b = rope_char_to_byte(&self.rope, end);
                b - a
            },
            None => 0,
        }
    }

    /// Index of the char that holds byte `offset`; the char count at the end.
    pub fn byte_to_char(&self, offset: usize) -> (c: usize)
        requires
            offset <= byte_len(self@),
        ensures
            c == char_at_byte(self@, offset as int),
            c <= self@.len(),
    {
        proof {
            lemma_widths_positive();
            lemma_index_at_bounds(self@, offset as int, utf8_units());
        }
        rope_byte_to_char(&self.rope, offset)
    }

    /// Byte offset at which char `char_idx` starts.
    pub fn char_to_byte(&self, char_idx: usize) -> (b: usize)
        requires
            char_idx <= self@.len(),
        ensures
            b == byte_offset(self@, char_idx as int),
    {
        rope_char_to_byte(&self.rope, char_idx)
    }

    /// The char boundary at or before `offset`; offsets past the end give the end.
    pub fn clip_offset(&self, offset: usize) -> (b: usize)
        ensures
            b == floor_boundary(self@, offset as int),
            on_char_boundary(self@, b as int),
            b <= byte_len(self@),
            b <= offset || offset > byte_len(self@),
    {
        let len = self.len();
        let o = if offset < len {
            offset
        } else {
            len
        };
        let c = self.byte_to_char(o);
        proof {
            lemma_floor_boundary(self@, offset as int);
        }
        self.char_to_byte(c)
    }

    /// Number of lines: one more than the number of line feeds.
    pub fn line_count(&self) -> (n: usize)
        ensures
            n == line_count(self@),
    {
        rope_len_lines(&self.rope)
    }

    pub fn is_empty(&self) -> (b: bool)
        ensures
            b == (byte_len(self@) == 0),
            b == (self@.len() == 0),
    {
        proof {
            lemma_widths_positive();
            lemma_offset_monotone(self@, 0, self@.len() as int, utf8_units());
            lemma_offset_basics(self@, 0, utf8_units());
        }
        self.len() == 0
    }

    /// Puts `text` in at byte `offset`.
    pub fn insert(&mut self, offset: usize, text: &str)
        requires
            offset <= byte_len(old(self)@),
        ensures
            final(self)@ == text_inserted(old(self)@, offset as int, text@),
    {
        proof {
            lemma_widths_positive();
            lemma_index_at_bounds(self@, offset as int, utf8_units());
        }
        let char_idx = rope_byte_to_char(&self.rope, offset);
        rope_insert(&mut self.rope, char_idx, text);
    }

    /// Takes out the bytes of `range`.
    pub fn remove(&mut self, range: std::ops::Range<usize>)
        requires
            range.start <= range.end <= byte_len(old(self)@),
        ensures
            final(self)@ == text_removed(old(self)@, range.start as int, range.end as int),
    {
        proof {
            lemma_widths_positive();
            lemma_index_at_bounds(self@, range.end as int, utf8_units());
            lemma_index_at_monotone(self@, range.start as int, range.end as int, utf8_units());
        }
        let start = rope_byte_to_char(&self.rope, range.start);
        let end = rope_byte_to_char(&self.rope, range.end);
        rope_remove(&mut self.rope, start, end);
    }

    /// The text of the byte `range`.
    pub fn slice(&self, range: std::ops::Range<usize>) -> (r: String)
        requires
            range.start <= range.end <= byte_len(self@),
        ensures
            r@ == self@.subrange(
                char_at_byte(self@, range.start as int) as int,
                char_at_byte(self@, range.end as int) as int,
            ),
    {
        proof {
            lemma_widths_positive();
            lemma_index_at_bounds(self@, range.end as int, utf8_units());
            lemma_index_at_monotone(self@, range.start as int, range.end as int, utf8_units());
        }
        let start = rope_byte_to_char(&self.rope, range.start);
        let end = rope_byte_to_char(&self.rope, range.end);
        rope_slice(&self.rope, start, end)
    }

    /// The whole text.
    pub fn text(&self) -> (r: String)
        ensures
            r@ == self@,
    {
        let n = rope_len_chars(&self.rope);
        let r = rope_slice(&self.rope, 0, n);
        assert(r@ =~= self@);
        r
    }

    /// UTF-16 offset of the char that holds byte `byte_offset`; offsets past
    /// the end give the UTF-16 length.
    pub fn byte_to_utf16(&self, byte_offset: usize) -> (u: usize)
        ensures
            u == utf16_of_byte(self@, byte_offset as int),
    {
        let len = self.len();
        let b = if byte_offset < len {
            byte_offset
        } else {
            len
        };
        proof {
            lemma_widths_positive();
            lemma_index_at_bounds(self@, b as int, utf8_units());
        }
        let char_offset = rope_byte_to_char(&self.rope, b);
        rope_char_to_utf16_cu(&self.rope, char_offset)
    }

    /// Byte offset of the char that holds UTF-16 code unit `utf16_offset`;
    /// offsets past the end give the byte length.
    pub fn utf16_to_byte(&self, utf16_offset: usize) -> (b: usize)
        ensures
            b == byte_of_utf16(self@, utf16_offset as int),
    {
        proof {
            lemma_widths_positive();
            lemma_offset_basics(self@, 0, utf16_units());
        }
        let n = rope_len_chars(&self.rope);
        let len16 = rope_char_to_utf16_cu(&self.rope, n);
        let u = if utf16_offset < len16 {
            utf16_offset
        } else {
            len16
        };
        proof {
            lemma_index_at_bounds(self@, u as int, utf16_units());
        }
        let char_offset = rope_utf16_cu_to_char(&self.rope, u);
        rope_char_to_byte(&self.rope, char_offset)
    }

    /// The point at the end of the text.
    pub fn max_point(&self) -> (p: TextPoint)
        ensures
            p.row == lf_count(self@),
            p.column == byte_len(self@) - line_start_byte(self@, lf_count(self@)),
    {
        let len_lines = rope_len_lines(&self.rope);
        let last = len_lines - 1;
        proof {
            lemma_line_start_byte_monotone(self@, last as nat, last as nat + 1);
            lemma_line_start_bounds_end(self@);
        }
        let start = rope_line_to_byte(&self.rope, last);
        let end = rope_line_to_byte(&self.rope, len_lines);
        TextPoint::new(last, end - start)
    }

    /// The point at byte `offset`, clamped to the text.
    pub fn offset_to_point(&self, offset: usize) -> (p: TextPoint)
        ensures
            p.row == point_row(self@, offset as int),
            p.column == point_column(self@, offset as int),
    {
        let len = self.len();
        let offset = if offset < len {
            offset
        } else {
            len
        };
        proof {
            lemma_row_of_byte(self@, offset as int);
        }
        let row = rope_byte_to_line(&self.rope, offset);
        let line_start = rope_line_to_byte(&self.rope, row);
        TextPoint::new(row, offset - line_start)
    }

    /// Byte offset of `point`; its row clamps to the last line, its column to
    /// the line's length.
    pub fn point_to_offset(&self, point: TextPoint) -> (offset: usize)
        ensures
            offset == point_offset(self@, point.row as int, point.column as int),
    {
        let len_lines = rope_len_lines(&self.rope);
        let row = if point.row < len_lines {
            point.row
        } else {
            len_lines - 1
        };
        proof {
            lemma_line_start_byte_monotone(self@, row as nat, row as nat + 1);
            if (row as nat) < lf_count(self@) {
                lemma_line_ends_with_lf(self@, row as nat);
            }
        }
        let line_start = rope_line_to_byte(&self.rope, row);
        let line_end = rope_line_to_byte(&self.rope, row + 1);
        let full = if row < len_lines - 1 {
            line_end - line_start - 1
        } else {
            line_end - line_start
        };
        let column = if point.column < full {
            point.column
        } else {
            full
        };
        line_start + column
    }

    /// The text of line `line_idx` without its line feed (nor a `\r` before
    /// it), or `None` past the last line.
    pub fn line(&self, line_idx: usize) -> (r: Option<String>)
        ensures
            match r {
                Some(t) => line_idx < line_count(self@) && t@ == line_text(self@, line_idx as nat),
                None => line_idx >= line_count(self@),
            },
    {
        match self.line_chars(line_idx) {
            Some((start, end)) => Some(rope_slice(&self.rope, start, end)),
            None => None,
        }
    }

    /// Char range of the text of line `line_idx`, terminator left out.
    fn line_chars(&self, line_idx: usize) -> (r: Option<(usize, usize)>)
        ensures
            match r {
                Some((start, end)) => line_idx < line_count(self@) && start <= end <= self@.len()
                    && self@.subrange(start as int, end as int) == line_text(
                    self@,
                    line_idx as nat,
                ),
                None => line_idx >= line_count(self@),
            },
    {
        let len_lines = rope_len_lines(&self.rope);
        if line_idx >= len_lines {
            return None;
        }
        let s = Ghost(self@);
        proof {
            lemma_widths_positive();
            crate::lines::lemma_line_start_bounds(s@, line_idx as nat, line_idx as nat + 1);
            lemma_line_start_byte_monotone(s@, line_idx as nat, line_idx as nat + 1);
            lemma_index_of_offset(s@, line_start(s@, line_idx as nat) as int, utf8_units());
            lemma_index_of_offset(s@, line_start(s@, line_idx as nat + 1) as int, utf8_units());
        }
        let start_byte = rope_line_to_byte(&self.rope, line_idx);
        let end_byte = rope_line_to_byte(&self.rope, line_idx + 1);
        let start = rope_byte_to_char(&self.rope, start_byte);
        let mut end = rope_byte_to_char(&self.rope, end_byte);
        let ghost raw = raw_line(s@, line_idx as nat);
        assert(raw =~= s@.subrange(start as int, end as int));
        if end > start && rope_char(&self.rope, end - 1) == '\n' {
            end = end - 1;
            assert(raw.drop_last() =~= s@.subrange(start as int, end as int));
            if end > start && rope_char(&self.rope, end - 1) == '\r' {
                end = end - 1;
                assert(raw.drop_last().drop_last() =~= s@.subrange(start as int, end as int));
            }
        }
        Some((start, end))
    }
}

impl Default for TextBuffer {
    fn default() -> (t: Self)
        ensures
            t@ == Seq::<char>::empty(),
    {
        Self::new()
    }
}

impl From<&str> for TextBuffer {
    fn from(text: &str) -> (t: Self)
        ensures
            t@ == text@,
    {
        Self { rope: rope_from_str(text) }
    }
}

impl vstd::std_specs::convert::FromSpecImpl<&str> for TextBuffer {
    open spec fn obeys_from_spec() -> bool {
        false
    }

    open spec fn from_spec(v: &str) -> TextBuffer {
        choose|t: TextBuffer| t@ == v@
    }
}

/// A byte offset within the text, turned into a point and back, is itself.
pub proof fn lemma_point_round_trip(s: Seq<char>, offset: int)
    requires
        0 <= offset <= byte_len(s),
    ensures
        point_offset(s, point_row(s, offset) as int, point_column(s, offset)) == offset,
{
    lemma_row_of_byte(s, offset);
    let r = point_row(s, offset);
    if r < lf_count(s) {
        lemma_line_ends_with_lf(s, r);
    }
}

/// A UTF-16 offset on a char boundary, turned into a byte offset and back, is itself.
pub proof fn lemma_utf16_round_trip(s: Seq<char>, u: int)
    requires
        on_utf16_boundary(s, u),
    ensures
        utf16_of_byte(s, byte_of_utf16(s, u) as int) == u,
{
    lemma_widths_positive();
    lemma_index_at_bounds(s, u, utf16_units());
    let i = char_at_utf16(s, u) as int;
    lemma_offset_monotone(s, i, s.len() as int, utf16_units());
    lemma_offset_basics(s, 0, utf16_units());
    lemma_offset_monotone(s, i, s.len() as int, utf8_units());
    lemma_offset_basics(s, 0, utf8_units());
    lemma_index_of_offset(s, i, utf8_units());
}

/// A byte offset on a char boundary, turned into a UTF-16 offset and back, is itself.
pub proof fn lemma_byte_round_trip(s: Seq<char>, b: int)
    requires
        on_char_boundary(s, b),
    ensures
        byte_of_utf16(s, utf16_of_byte(s, b) as int) == b,
{
    lemma_widths_positive();
    lemma_index_at_bounds(s, b, utf8_units());
    let i = char_at_byte(s, b) as int;
    lemma_offset_monotone(s, i, s.len() as int, utf8_units());
    lemma_offset_basics(s, 0, utf8_units());
    lemma_offset_monotone(s, i, s.len() as int, utf16_units());
    lemma_offset_basics(s, 0, utf16_units());
    lemma_index_of_offset(s, i, utf16_units());
}

/// The char boundary at or before `offset` (clamped to the text).
pub open spec fn floor_boundary(s: Seq<char>, offset: int) -> nat {
    byte_offset(s, char_at_byte(s, clamp_offset(s, offset)) as int)
}

/// The boundary at or before an offset is a boundary, within the text, and no
/// later than the (clamped) offset; an offset on a boundary is its own floor.
pub proof fn lemma_floor_boundary(s: Seq<char>, offset: int)
    requires
        0 <= offset,
    ensures
        on_char_boundary(s, floor_boundary(s, offset) as int),
        floor_boundary(s, offset) <= clamp_offset(s, offset),
        floor_boundary(s, offset) <= byte_len(s),
        on_char_boundary(s, offset) ==> floor_boundary(s, offset) == offset,
{
    lemma_widths_positive();
    let o = clamp_offset(s, offset);
    lemma_index_at_bounds(s, o, utf8_units());
    lemma_index_of_offset(s, char_at_byte(s, o) as int, utf8_units());
    lemma_offset_monotone(s, char_at_byte(s, o) as int, s.len() as int, utf8_units());
    lemma_offset_basics(s, 0, utf8_units());
    if on_char_boundary(s, offset) {
        lemma_index_at_bounds(s, offset, utf8_units());
        lemma_offset_monotone(s, char_at_byte(s, offset) as int, s.len() as int, utf8_units());
        lemma_offset_basics(s, 0, utf8_units());
    }
}

/// Both UTF-16 conversions never go backwards as their offset grows.
pub proof fn lemma_utf16_conversions_monotone(s: Seq<char>, x: int, y: int)
    requires
        0 <= x <= y,
    ensures
        utf16_of_byte(s, x) <= utf16_of_byte(s, y),
        byte_of_utf16(s, x) <= byte_of_utf16(s, y),
{
    lemma_widths_positive();
    let (bx, by) = (clamp_offset(s, x), clamp_offset(s, y));
    lemma_index_at_monotone(s, bx, by, utf8_units());
    lemma_index_at_bounds(s, by, utf8_units());
    lemma_offset_monotone(s, char_at_byte(s, bx) as int, char_at_byte(s, by) as int, utf16_units());
    let ux = if x < utf16_len(s) {
        x
    } else {
        utf16_len(s) as int
    };
    let uy = if y < utf16_len(s) {
        y
    } else {
        utf16_len(s) as int
    };
    lemma_index_at_monotone(s, ux, uy, utf16_units());
    lemma_index_at_bounds(s, uy, utf16_units());
    lemma_offset_monotone(s, char_at_utf16(s, ux) as int, char_at_utf16(s, uy) as int, utf8_units());
}

/// Putting text in adds its byte length.
pub proof fn lemma_inserted_len(s: Seq<char>, offset: int, t: Seq<char>)
    requires
        0 <= offset <= byte_len(s),
    ensures
        byte_len(text_inserted(s, offset, t)) == byte_len(s) + byte_len(t),
{
    lemma_widths_positive();
    lemma_index_at_bounds(s, offset, utf8_units());
    let c = char_at_byte(s, offset) as int;
    assert(s =~= s.take(c) + s.skip(c));
    lemma_measure_concat(s.take(c), s.skip(c), utf8_units());
    lemma_measure_concat(s.take(c) + t, s.skip(c), utf8_units());
    lemma_measure_concat(s.take(c), t, utf8_units());
}

/// Taking out the bytes between two char boundaries takes out exactly that many bytes.
pub proof fn lemma_removed_len(s: Seq<char>, start: int, end: int)
    requires
        on_char_boundary(s, start),
        on_char_boundary(s, end),
        start <= end <= byte_len(s),
    ensures
        byte_len(text_removed(s, start, end)) == byte_len(s) - (end - start),
        char_at_byte(s, start) <= char_at_byte(s, end) <= s.len(),
{
    lemma_widths_positive();
    lemma_index_at_bounds(s, end, utf8_units());
    lemma_index_at_monotone(s, start, end, utf8_units());
    let a = char_at_byte(s, start) as int;
    let b = char_at_byte(s, end) as int;
    assert(s =~= s.take(b) + s.skip(b));
    lemma_measure_concat(s.take(b), s.skip(b), utf8_units());
    lemma_measure_concat(s.take(a), s.skip(b), utf8_units());
}

/// After text goes in at a boundary, the offset just past it is a boundary.
pub proof fn lemma_inserted_boundary(s: Seq<char>, offset: int, t: Seq<char>)
    requires
        on_char_boundary(s, offset),
    ensures
        on_char_boundary(text_inserted(s, offset, t), offset + byte_len(t)),
        on_char_boundary(text_inserted(s, offset, t), offset),
{
    lemma_widths_positive();
    let w = utf8_units();
    lemma_index_at_bounds(s, offset, w);
    let c = char_at_byte(s, offset) as int;
    let r = text_inserted(s, offset, t);
    assert(r.take(c + t.len()) =~= s.take(c) + t);
    lemma_measure_concat(s.take(c), t, w);
    lemma_index_of_offset(r, c + t.len(), w);
    assert(r.take(c) =~= s.take(c));
    lemma_index_of_offset(r, c, w);
}

/// After the bytes between two boundaries go, the first of them is a boundary
/// of what is left, at the same char.
pub proof fn lemma_removed_boundary(s: Seq<char>, start: int, end: int)
    requires
        on_char_boundary(s, start),
        on_char_boundary(s, end),
        start <= end,
    ensures
        on_char_boundary(text_removed(s, start, end), start),
{
    lemma_widths_positive();
    let w = utf8_units();
    lemma_index_at_bounds(s, end, w);
    lemma_index_at_monotone(s, start, end, w);
    let a = char_at_byte(s, start) as int;
    let r = text_removed(s, start, end);
    assert(r.take(a) =~= s.take(a));
    lemma_index_of_offset(r, a, w);
}

/// Every byte offset that comes back from a UTF-16 offset is a boundary of the text.
pub proof fn lemma_byte_of_utf16_boundary(s: Seq<char>, u: int)
    ensures
        on_char_boundary(s, byte_of_utf16(s, u) as int),
        byte_of_utf16(s, u) <= byte_len(s),
{
    lemma_widths_positive();
    let v = if u < utf16_len(s) {
        u
    } else {
        utf16_len(s) as int
    };
    if v >= 0 {
        lemma_index_at_bounds(s, v, utf16_units());
    }
    let i = char_at_utf16(s, v) as int;
    assert(i <= s.len()) by {
        if v < 0 {
            if s.len() > 0 {
                assert(utf16_units()(s[0]) >= 1);
            }
        }
    }
    lemma_index_of_offset(s, i, utf8_units());
    lemma_offset_monotone(s, i, s.len() as int, utf8_units());
    lemma_offset_basics(s, 0, utf8_units());
}

/// A line before the last ends with its line feed, one byte long: the next
/// line starts at least one byte later.
pub proof fn lemma_line_ends_with_lf(s: Seq<char>, r: nat)
    requires
        r < lf_count(s),
    ensures
        line_start_byte(s, r) + 1 <= line_start_byte(s, r + 1),
{
    crate::lines::lemma_line_start_strict(s, r);
    crate::lines::lemma_line_start_bounds(s, r + 1, r + 1);
    lemma_widths_positive();
    lemma_offset_monotone(
        s,
        line_start(s, r) as int,
        line_start(s, r + 1) as int,
        utf8_units(),
    );
}

/// The line past the last one starts at the end of the text.
proof fn lemma_line_start_bounds_end(s: Seq<char>)
    ensures
        line_start_byte(s, lf_count(s) + 1) == byte_len(s),
{
    crate::lines::lemma_line_start_bounds(s, lf_count(s) + 1, lf_count(s) + 1);
    lemma_offset_basics(s, 0, utf8_units());
}

} // verus!
