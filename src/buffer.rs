//! The text buffer: text storage plus the formatting overlay, kept
//! consistent under edits.

use vstd::prelude::*;
use std::ops::Range;
use crate::format_span::{Attribute, FormatSpan};
use crate::lines::{lf_count, line_count, line_start_byte};
use crate::offsets::{byte_len, byte_offset, char_at_byte, on_char_boundary};
use crate::overlay::{
    covered, fully_covered, insert_pos, lemma_after_insert_wf, lemma_after_remove_wf,
    lemma_toggled, sort_by_start, sorted_by_start, spans_after_insert, spans_after_remove,
    spans_shifted_by_remove, nonempty_only, spans_wf, split_all, split_parts, toggled,
};
use crate::text::{
    byte_of_utf16, floor_boundary, lemma_inserted_len, lemma_removed_len, line_byte_len, point_column,
    point_offset, point_row, text_inserted, text_removed, utf16_of_byte, TextBuffer, TextPoint,
};

verus! {

/// A text with its formatting spans.
#[derive(Clone, Debug)]
pub struct Buffer {
    text: TextBuffer,
    format_spans: Vec<FormatSpan>,
}

impl Buffer {
    /// The text.
    pub closed spec fn chars(&self) -> Seq<char> {
        self.text@
    }

    /// The formatting spans, in order of their start.
    pub closed spec fn spans(&self) -> Seq<FormatSpan> {
        self.format_spans@
    }

    /// Byte length of the text.
    pub open spec fn byte_len(&self) -> nat {
        byte_len(self.chars())
    }

    /// The spans are sorted, non-empty, within the text, and each sets one attribute.
    pub open spec fn wf(&self) -> bool {
        &&& self.byte_len() <= usize::MAX
        &&& spans_wf(self.spans(), self.byte_len() as int)
    }

    pub fn new() -> (b: Self)
        ensures
            b.wf(),
            b.chars() == Seq::<char>::empty(),
            b.spans() == Seq::<FormatSpan>::empty(),
    {
        let b = Self { text: TextBuffer::new(), format_spans: Vec::new() };
        assert(b.byte_len() == 0);
        b
    }

    /// A buffer holding `text`, with no formatting.
    pub fn from_text(text: &str) -> (b: Self)
        ensures
            b.wf(),
            b.chars() == text@,
            b.spans() == Seq::<FormatSpan>::empty(),
    {
        let b = Self { text: TextBuffer::from(text), format_spans: Vec::new() };
        // The rope reports its length as a `usize`, so the text's byte length fits one.
        let len = b.text.len();
        assert(b.byte_len() == len);
        b
    }

    pub fn byte_to_utf16(&self, byte_offset: usize) -> (u: usize)
        ensures
            u == utf16_of_byte(self.chars(), byte_offset as int),
    {
        self.text.byte_to_utf16(byte_offset)
    }

    pub fn utf16_to_byte(&self, utf16_offset: usize) -> (b: usize)
        ensures
            b == byte_of_utf16(self.chars(), utf16_offset as int),
    {
        self.text.utf16_to_byte(utf16_offset)
    }

    /// Length of the text in bytes.
    pub fn len(&self) -> (n: usize)
        ensures
            n == self.byte_len(),
    {
        self.text.len()
    }

    pub fn is_empty(&self) -> (b: bool)
        ensures
            b == (self.byte_len() == 0),
            b == (self.chars().len() == 0),
    {
        self.text.is_empty()
    }

    /// The whole text.
    pub fn text(&self) -> (s: String)
        ensures
            s@ == self.chars(),
    {
        self.text.text()
    }

    pub fn line_count(&self) -> (n: usize)
        ensures
            n == line_count(self.chars()),
    {
        self.text.line_count()
    }

    /// The text of a line, without its line feed.
    pub fn line(&self, line_idx: usize) -> (r: Option<String>)
        ensures
            match r {
                Some(t) => line_idx < line_count(self.chars()) && t@ == crate::lines::line_text(
                    self.chars(),
                    line_idx as nat,
                ),
                None => line_idx >= line_count(self.chars()),
            },
    {
        self.text.line(line_idx)
    }

    pub fn line_len(&self, row: usize) -> (n: usize)
        ensures
            n == line_byte_len(self.chars(), row as int),
    {
        self.text.line_len(row)
    }

    pub fn offset_to_point(&self, offset: usize) -> (p: TextPoint)
        ensures
            p.row == point_row(self.chars(), offset as int),
            p.column == point_column(self.chars(), offset as int),
    {
        self.text.offset_to_point(offset)
    }

    pub fn point_to_offset(&self, point: TextPoint) -> (offset: usize)
        ensures
            offset == point_offset(self.chars(), point.row as int, point.column as int),
    {
        self.text.point_to_offset(point)
    }

    pub fn max_point(&self) -> (p: TextPoint)
        ensures
            p.row == lf_count(self.chars()),
            p.column == self.byte_len() - line_start_byte(self.chars(), lf_count(self.chars())),
    {
        self.text.max_point()
    }

    pub fn slice(&self, range: Range<usize>) -> (r: String)
        requires
            range.start <= range.end <= self.byte_len(),
        ensures
            r@ == self.chars().subrange(
                char_at_byte(self.chars(), range.start as int) as int,
                char_at_byte(self.chars(), range.end as int) as int,
            ),
    {
        self.text.slice(range)
    }

    /// Index of the char that holds byte `offset`.
    pub fn byte_to_char(&self, offset: usize) -> (c: usize)
        requires
            offset <= self.byte_len(),
        ensures
            c == char_at_byte(self.chars(), offset as int),
            c <= self.chars().len(),
    {
        self.text.byte_to_char(offset)
    }

    /// Byte offset at which char `char_idx` starts.
    pub fn char_to_byte(&self, char_idx: usize) -> (b: usize)
        requires
            char_idx <= self.chars().len(),
        ensures
            b == byte_offset(self.chars(), char_idx as int),
    {
        self.text.char_to_byte(char_idx)
    }

    /// The char boundary at or before `offset`; offsets past the end give the end.
    pub fn clip_offset(&self, offset: usize) -> (b: usize)
        ensures
            b == floor_boundary(self.chars(), offset as int),
            on_char_boundary(self.chars(), b as int),
            b <= self.byte_len(),
            b <= offset || offset > self.byte_len(),
    {
        self.text.clip_offset(offset)
    }

    /// The formatting spans, in order of their start.
    pub fn format_spans(&self) -> (s: &[FormatSpan])
        ensures
            s@ == self.spans(),
    {
        self.format_spans.as_slice()
    }

    /// Puts `text` in at byte `offset`; spans at or after it move, a span
    /// around it grows.
    pub fn insert(&mut self, offset: usize, text: &str)
        requires
            old(self).wf(),
            on_char_boundary(old(self).chars(), offset as int),
        ensures
            final(self).wf(),
            final(self).chars() == text_inserted(old(self).chars(), offset as int, text@),
            final(self).spans() == spans_after_insert(
                old(self).spans(),
                offset as int,
                byte_len(text@) as int,
            ),
    {
        let old_len = self.text.len();
        proof {
            crate::movement::lemma_step_boundaries(self.chars(), offset as int);
        }
        self.text.insert(offset, text);
        let new_len = self.text.len();
        proof {
            lemma_inserted_len(old(self).chars(), offset as int, text@);
        }
        let n = new_len - old_len;
        let ghost old_spans = self.format_spans@;
        let ghost new_text = self.text@;
        let count = self.format_spans.len();
        let mut i: usize = 0;
        while i < count
            invariant
                i <= count,
                count == old_spans.len(),
                self.format_spans@.len() == count,
                spans_wf(old_spans, old_len as int),
                old_len + n == new_len,
                offset <= old_len,
                self.text@ == new_text,
                forall|j: int|
                    0 <= j < i ==> #[trigger] self.format_spans@[j] == old_spans[j].after_insert(
                        offset as int,
                        n as int,
                    ),
                forall|j: int| i <= j < count ==> #[trigger] self.format_spans@[j] == old_spans[j],
            decreases count - i,
        {
            let mut sp = self.format_spans[i].clone();
            assert(crate::overlay::span_ok(old_spans[i as int], old_len as int));
            sp.shift_for_insert(offset, n);
            self.format_spans.set(i, sp);
            i = i + 1;
        }
        proof {
            assert(self.format_spans@ =~= spans_after_insert(old_spans, offset as int, n as int));
            lemma_after_insert_wf(old_spans, offset as int, n as int, old_len as int);
        }
    }

    /// Takes out the bytes of `range`; spans follow, and those left empty go.
    pub fn remove(&mut self, range: Range<usize>)
        requires
            old(self).wf(),
            range.start <= range.end <= old(self).byte_len(),
            on_char_boundary(old(self).chars(), range.start as int),
            on_char_boundary(old(self).chars(), range.end as int),
        ensures
            final(self).wf(),
            final(self).chars() == text_removed(
                old(self).chars(),
                range.start as int,
                range.end as int,
            ),
            final(self).spans() == spans_after_remove(
                old(self).spans(),
                range.start as int,
                range.end - range.start,
            ),
    {
        proof {
            lemma_removed_len(self.chars(), range.start as int, range.end as int);
        }
        let offset = range.start;
        let n = range.end - range.start;
        let ghost old_len = self.byte_len();
        self.text.remove(range);
        let ghost old_spans = self.format_spans@;
        let ghost shifted = spans_shifted_by_remove(old_spans, offset as int, n as int);
        let mut kept: Vec<FormatSpan> = Vec::new();
        let count = self.format_spans.len();
        let mut i: usize = 0;
        while i < count
            invariant
                i <= count,
                count == old_spans.len(),
                self.format_spans@ == old_spans,
                spans_wf(old_spans, old_len as int),
                offset + n <= old_len,
                old_len <= usize::MAX,
                shifted == spans_shifted_by_remove(old_spans, offset as int, n as int),
                kept@ == nonempty_only(shifted.take(i as int)),
            decreases count - i,
        {
            let mut sp = self.format_spans[i].clone();
            assert(crate::overlay::span_ok(old_spans[i as int], old_len as int));
            sp.shift_for_remove(offset, n);
            assert(shifted.take(i + 1).drop_last() =~= shifted.take(i as int));
            if sp.range.start < sp.range.end {
                kept.push(sp);
            }
            i = i + 1;
        }
        proof {
            assert(shifted.take(count as int) =~= shifted);
            lemma_after_remove_wf(old_spans, offset as int, n as int, old_len as int);
        }
        self.format_spans = kept;
    }

    /// Takes out the bytes of `range` and puts `text` in where they were.
    pub fn replace(&mut self, range: Range<usize>, text: &str)
        requires
            old(self).wf(),
            range.start <= range.end <= old(self).byte_len(),
            on_char_boundary(old(self).chars(), range.start as int),
            on_char_boundary(old(self).chars(), range.end as int),
        ensures
            final(self).wf(),
            final(self).chars() == text_inserted(
                text_removed(old(self).chars(), range.start as int, range.end as int),
                range.start as int,
                text@,
            ),
            final(self).spans() == spans_after_insert(
                spans_after_remove(old(self).spans(), range.start as int, range.end - range.start),
                range.start as int,
                byte_len(text@) as int,
            ),
    {
        let start = range.start;
        proof {
            lemma_removed_len(self.chars(), range.start as int, range.end as int);
            crate::text::lemma_removed_boundary(self.chars(), range.start as int, range.end as int);
        }
        self.remove(range);
        self.insert(start, text);
    }

    /// Whether every byte of `range` is set to attribute `a` by some span; an
    /// empty range is not.
    pub fn is_formatted_with(&self, range: &Range<usize>, a: Attribute) -> (b: bool)
        requires
            sorted_by_start(self.spans()),
        ensures
            b == fully_covered(self.spans(), a, range.start as int, range.end as int),
    {
        if range.start >= range.end {
            return false;
        }
        let spans = &self.format_spans;
        let ghost s = spans@;
        assert(s == self.spans());
        let mut cursor = range.start;
        let mut i: usize = 0;
        while i < spans.len()
            invariant
                i <= spans.len(),
                s == spans@,
                s == self.spans(),
                sorted_by_start(s),
                range.start <= cursor,
                range.start < range.end,
                forall|x: int| range.start <= x < cursor ==> #[trigger] covered(s, a, x),
                forall|j: int|
                    0 <= j < i && #[trigger] s[j].asserts(a) && s[j].meets(
                        range.start as int,
                        range.end as int,
                    ) ==> s[j].range.end <= cursor || range.end <= cursor,
            decreases spans.len() - i,
        {
            let sp = &spans[i];
            if sp.sets(a) && sp.overlaps(range) {
                let start = if sp.range.start > range.start {
                    sp.range.start
                } else {
                    range.start
                };
                let end = if sp.range.end < range.end {
                    sp.range.end
                } else {
                    range.end
                };
                if start > cursor {
                    assert(cursor < range.end);
                    proof {
                        assert(!covered(s, a, cursor as int)) by {
                            if covered(s, a, cursor as int) {
                                let j = choose|j: int|
                                    0 <= j < s.len() && #[trigger] s[j].asserts(a) && s[j].holds(
                                        cursor as int,
                                    );
                                if j >= i {
                                    assert(s[i as int].range.start <= s[j].range.start);
                                }
                            }
                        }
                    }
                    assert(!fully_covered(s, a, range.start as int, range.end as int));
                    return false;
                }
                if end > cursor {
                    proof {
                        assert forall|x: int| range.start <= x < end implies #[trigger] covered(
                            s,
                            a,
                            x,
                        ) by {
                            if x >= cursor {
                                assert(s[i as int].asserts(a) && s[i as int].holds(x));
                            }
                        }
                    }
                    cursor = end;
                }
            }
            i = i + 1;
        }
        proof {
            if cursor < range.end {
                assert(!covered(s, a, cursor as int)) by {
                    if covered(s, a, cursor as int) {
                        let j = choose|j: int|
                            0 <= j < s.len() && #[trigger] s[j].asserts(a) && s[j].holds(
                                cursor as int,
                            );
                    }
                }
            }
        }
        cursor >= range.end
    }

    /// Toggles attribute `a` over `range`: if every byte of it already has
    /// `a`, `a` is taken off the range; otherwise it is set over all of it.
    /// Spans of other attributes are left as they are. An empty range is a no-op.
    pub fn toggle(&mut self, range: Range<usize>, a: Attribute)
        requires
            old(self).wf(),
            range.end <= old(self).byte_len(),
        ensures
            final(self).wf(),
            final(self).chars() == old(self).chars(),
            final(self).spans() == toggled(
                old(self).spans(),
                a,
                range.start as int,
                range.end as int,
            ),
    {
        if range.start >= range.end {
            return;
        }
        let ghost old_spans = self.format_spans@;
        let ghost rs = range.start as int;
        let ghost re = range.end as int;
        let fully = self.is_formatted_with(&range, a);
        let mut parts: Vec<FormatSpan> = Vec::new();
        let count = self.format_spans.len();
        let mut i: usize = 0;
        while i < count
            invariant
                i <= count,
                count == old_spans.len(),
                self.format_spans@ == old_spans,
                rs == range.start,
                re == range.end,
                parts@ == split_all(old_spans.take(i as int), a, rs, re, fully),
            decreases count - i,
        {
            let sp = &self.format_spans[i];
            let ghost before = parts@;
            let cut = sp.overlaps(&range) && match sp.attribute(a) {
                Some(v) => !fully || v,
                None => false,
            };
            if cut {
                if sp.range.start < range.start {
                    parts.push(sp.with_range(sp.range.start, range.start));
                }
                if sp.range.end > range.end {
                    parts.push(sp.with_range(range.end, sp.range.end));
                }
            } else {
                parts.push(sp.clone());
            }
            proof {
                let t = old_spans.take(i + 1);
                assert(t.drop_last() =~= old_spans.take(i as int));
                assert(t.last() == old_spans[i as int]);
                assert(parts@ =~= before + split_parts(old_spans[i as int], a, rs, re, fully));
            }
            i = i + 1;
        }
        proof {
            assert(old_spans.take(count as int) =~= old_spans);
        }
        if !fully {
            parts.push(FormatSpan::with_attribute(Range { start: range.start, end: range.end }, a));
        }
        let ghost all = parts@;
        let mut sorted: Vec<FormatSpan> = Vec::new();
        let total = parts.len();
        let mut k: usize = 0;
        while k < total
            invariant
                k <= total,
                total == all.len(),
                parts@ == all,
                sorted@ == sort_by_start(all.take(k as int)),
            decreases total - k,
        {
            let x = parts[k].clone();
            let key = x.range.start;
            let mut j = sorted.len();
            assert(sorted@.take(j as int) =~= sorted@);
            while j > 0 && sorted[j - 1].range.start > key
                invariant
                    j <= sorted@.len(),
                    insert_pos(sorted@, key as int) == insert_pos(sorted@.take(j as int), key as int),
                decreases j,
            {
                assert(sorted@.take(j as int).drop_last() =~= sorted@.take(j - 1));
                j = j - 1;
            }
            proof {
                assert(sorted@.take(sorted@.len() as int) =~= sorted@);
                if j > 0 {
                    assert(sorted@.take(j as int).last() == sorted@[j - 1]);
                } else {
                    assert(sorted@.take(0) =~= Seq::<FormatSpan>::empty());
                }
                assert(all.take(k + 1).drop_last() =~= all.take(k as int));
            }
            sorted.insert(j, x);
            k = k + 1;
        }
        proof {
            assert(all.take(total as int) =~= all);
            lemma_toggled(old_spans, a, rs, re, self.byte_len() as int);
        }
        self.format_spans = sorted;
    }

    /// Toggles bold over `range`.
    pub fn toggle_bold(&mut self, range: Range<usize>)
        requires
            old(self).wf(),
            range.end <= old(self).byte_len(),
        ensures
            final(self).wf(),
            final(self).chars() == old(self).chars(),
            final(self).spans() == toggled(
                old(self).spans(),
                Attribute::Bold,
                range.start as int,
                range.end as int,
            ),
    {
        self.toggle(range, Attribute::Bold)
    }

    /// Toggles italic over `range`.
    pub fn toggle_italic(&mut self, range: Range<usize>)
        requires
            old(self).wf(),
            range.end <= old(self).byte_len(),
        ensures
            final(self).wf(),
            final(self).chars() == old(self).chars(),
            final(self).spans() == toggled(
                old(self).spans(),
                Attribute::Italic,
                range.start as int,
                range.end as int,
            ),
    {
        self.toggle(range, Attribute::Italic)
    }

    /// Toggles underline over `range`.
    pub fn toggle_underline(&mut self, range: Range<usize>)
        requires
            old(self).wf(),
            range.end <= old(self).byte_len(),
        ensures
            final(self).wf(),
            final(self).chars() == old(self).chars(),
            final(self).spans() == toggled(
                old(self).spans(),
                Attribute::Underline,
                range.start as int,
                range.end as int,
            ),
    {
        self.toggle(range, Attribute::Underline)
    }
}

impl Default for Buffer {
    fn default() -> (b: Self)
        ensures
            b.wf(),
            b.chars() == Seq::<char>::empty(),
            b.spans() == Seq::<FormatSpan>::empty(),
    {
        Self::new()
    }
}

} // verus!
