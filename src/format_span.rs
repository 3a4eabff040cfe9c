//! Formatting spans: a byte range that asserts one formatting attribute, and
//! how a span follows edits of the text under it.

use vstd::prelude::*;
use std::ops::Range;

verus! {

/// The formatting attributes a span can assert.
#[derive(Clone, Copy, Debug, PartialEq, Eq, Structural)]
pub enum Attribute {
    Bold,
    Italic,
    Underline,
}

/// A byte range of the text with its formatting. `None` means "not asserted
/// here", not "false".
#[derive(Debug, PartialEq, Eq)]
pub struct FormatSpan {
    pub range: Range<usize>,
    pub bold: Option<bool>,
    pub italic: Option<bool>,
    pub underline: Option<bool>,
}

/// Where the bounds (`start`, `end`) of a span go when `len` bytes are put in
/// at `offset`.
pub open spec fn bounds_after_insert(start: int, end: int, offset: int, len: int) -> (int, int) {
    if offset <= start {
        (start + len, end + len)
    } else if offset < end {
        (start, end + len)
    } else {
        (start, end)
    }
}

/// Where the bounds (`start`, `end`) of a span go when the `len` bytes from
/// `offset` on are taken out.
pub open spec fn bounds_after_remove(start: int, end: int, offset: int, len: int) -> (int, int) {
    let delete_end = offset + len;
    if delete_end <= start {
        (start - len, end - len)
    } else if offset >= end {
        (start, end)
    } else if offset <= start && delete_end >= end {
        (offset, offset)
    } else if offset <= start {
        (offset, end - len)
    } else if delete_end >= end {
        (start, offset)
    } else {
        (start, end - len)
    }
}

/// Where the bounds go for a signed change of `delta` bytes at `offset`.
pub open spec fn bounds_after_delta(start: int, end: int, offset: int, delta: int) -> (int, int) {
    if delta > 0 {
        bounds_after_insert(start, end, offset, delta)
    } else if delta < 0 {
        bounds_after_remove(start, end, offset, -delta)
    } else {
        (start, end)
    }
}

impl FormatSpan {
    /// The value this span gives attribute `a`.
    pub open spec fn attr(self, a: Attribute) -> Option<bool> {
        match a {
            Attribute::Bold => self.bold,
            Attribute::Italic => self.italic,
            Attribute::Underline => self.underline,
        }
    }

    /// This span sets attribute `a` over its range.
    pub open spec fn asserts(self, a: Attribute) -> bool {
        self.attr(a) == Some(true)
    }

    /// Byte `x` lies in this span's range.
    pub open spec fn holds(self, x: int) -> bool {
        self.range.start <= x < self.range.end
    }

    /// This span's range meets the half-open range [`start`, `end`).
    pub open spec fn meets(self, start: int, end: int) -> bool {
        self.range.start < end && self.range.end > start
    }

    /// This span with its range replaced by [`start`, `end`).
    pub open spec fn with_bounds(self, start: int, end: int) -> FormatSpan {
        FormatSpan { range: Range { start: start as usize, end: end as usize }, ..self }
    }

    /// The span that asserts exactly attribute `a` over [`start`, `end`).
    pub open spec fn single(start: int, end: int, a: Attribute) -> FormatSpan {
        FormatSpan {
            range: Range { start: start as usize, end: end as usize },
            bold: if a == Attribute::Bold {
                Some(true)
            } else {
                None
            },
            italic: if a == Attribute::Italic {
                Some(true)
            } else {
                None
            },
            underline: if a == Attribute::Underline {
                Some(true)
            } else {
                None
            },
        }
    }

    /// Exactly one attribute is asserted, and the other two are left unset.
    pub open spec fn single_attribute(self) -> bool {
        ||| self.bold == Some(true) && self.italic is None && self.underline is None
        ||| self.bold is None && self.italic == Some(true) && self.underline is None
        ||| self.bold is None && self.italic is None && self.underline == Some(true)
    }

    /// This span after `len` bytes are put in at `offset`.
    pub open spec fn after_insert(self, offset: int, len: int) -> FormatSpan {
        let b = bounds_after_insert(self.range.start as int, self.range.end as int, offset, len);
        self.with_bounds(b.0, b.1)
    }

    /// This span after the `len` bytes from `offset` on are taken out.
    pub open spec fn after_remove(self, offset: int, len: int) -> FormatSpan {
        let b = bounds_after_remove(self.range.start as int, self.range.end as int, offset, len);
        self.with_bounds(b.0, b.1)
    }

    /// A span over `range` with no formatting.
    pub fn new(range: Range<usize>) -> (s: Self)
        ensures
            s.range == range,
            s.bold is None,
            s.italic is None,
            s.underline is None,
    {
        Self { range, bold: None, italic: None, underline: None }
    }

    /// The span that asserts exactly attribute `a` over `range`.
    pub fn with_attribute(range: Range<usize>, a: Attribute) -> (s: Self)
        ensures
            s == FormatSpan::single(range.start as int, range.end as int, a),
    {
        let mut s = Self::new(range);
        match a {
            Attribute::Bold => s.bold = Some(true),
            Attribute::Italic => s.italic = Some(true),
            Attribute::Underline => s.underline = Some(true),
        }
        s
    }

    /// This span's attributes over another range.
    pub fn with_range(&self, start: usize, end: usize) -> (s: Self)
        ensures
            s == self.with_bounds(start as int, end as int),
    {
        Self {
            range: Range { start, end },
            bold: self.bold,
            italic: self.italic,
            underline: self.underline,
        }
    }

    /// The value this span gives attribute `a`.
    pub fn attribute(&self, a: Attribute) -> (v: Option<bool>)
        ensures
            v == self.attr(a),
    {
        match a {
            Attribute::Bold => self.bold,
            Attribute::Italic => self.italic,
            Attribute::Underline => self.underline,
        }
    }

    /// This span sets attribute `a` over its range.
    pub fn sets(&self, a: Attribute) -> (b: bool)
        ensures
            b == self.asserts(a),
    {
        match self.attribute(a) {
            Some(v) => v,
            None => false,
        }
    }

    /// Some attribute is set to true.
    pub open spec fn formatted(self) -> bool {
        self.bold == Some(true) || self.italic == Some(true) || self.underline == Some(true)
    }

    /// Some attribute is set to true.
    pub fn has_formatting(&self) -> (b: bool)
        ensures
            b == self.formatted(),
    {
        self.bold == Some(true) || self.italic == Some(true) || self.underline == Some(true)
    }

    /// This span's range meets `other`.
    pub fn overlaps(&self, other: &Range<usize>) -> (b: bool)
        ensures
            b == self.meets(other.start as int, other.end as int),
    {
        self.range.start < other.end && self.range.end > other.start
    }

    /// Follows the insertion of `len` bytes at `offset`.
    pub fn shift_for_insert(&mut self, offset: usize, len: usize)
        requires
            old(self).range.start <= old(self).range.end,
            old(self).range.end + len <= usize::MAX,
        ensures
            *final(self) == old(self).after_insert(offset as int, len as int),
    {
        if offset <= self.range.start {
            self.range.start = self.range.start + len;
            self.range.end = self.range.end + len;
        } else if offset < self.range.end {
            self.range.end = self.range.end + len;
        }
    }

    /// Follows the removal of the `len` bytes from `offset` on.
    pub fn shift_for_remove(&mut self, offset: usize, len: usize)
        requires
            old(self).range.start <= old(self).range.end,
            offset + len <= usize::MAX,
        ensures
            *final(self) == old(self).after_remove(offset as int, len as int),
    {
        let delete_end = offset + len;
        if delete_end <= self.range.start {
            self.range.start = self.range.start - len;
            self.range.end = self.range.end - len;
        } else if offset >= self.range.end {
        } else if offset <= self.range.start && delete_end >= self.range.end {
            self.range.start = offset;
            self.range.end = offset;
        } else if offset <= self.range.start && delete_end < self.range.end {
            self.range.start = offset;
            self.range.end = self.range.end - len;
        } else if offset > self.range.start && delete_end >= self.range.end {
            self.range.end = offset;
        } else {
            self.range.end = self.range.end - len;
        }
    }

    /// Shifts the span's byte range to account for an insertion (`delta > 0`)
    /// or a deletion (`delta < 0`) of `|delta|` bytes at `offset`.
    pub fn shift_by_delta(&mut self, offset: usize, delta: isize)
        requires
            old(self).range.start <= old(self).range.end,
            delta > 0 ==> old(self).range.end + delta <= usize::MAX,
            delta < 0 ==> offset - delta <= usize::MAX,
        ensures
            ({
                let b = bounds_after_delta(
                    old(self).range.start as int,
                    old(self).range.end as int,
                    offset as int,
                    delta as int,
                );
                *final(self) == old(self).with_bounds(b.0, b.1)
            }),
    {
        if delta > 0 {
            self.shift_for_insert(offset, delta as usize);
        } else if delta < 0 {
            let len = (-(delta + 1)) as usize + 1;
            self.shift_for_remove(offset, len);
        } else {
            assert(*self == self.with_bounds(self.range.start as int, self.range.end as int));
        }
    }
}

impl Clone for FormatSpan {
    fn clone(&self) -> (s: Self)
        ensures
            s == *self,
    {
        self.with_range(self.range.start, self.range.end)
    }
}

} // verus!
