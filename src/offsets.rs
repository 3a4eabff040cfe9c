//! The mathematical model of positions in a text.
//!
//! A text is a `Seq<char>`. Offsets into it are measured in units of some
//! encoding: UTF-8 bytes or UTF-16 code units. `measure` gives the length of a
//! text in such units, `offset_of` the offset at which a given char starts, and
//! `index_at` the char that holds a given unit.

use vstd::prelude::*;
use vstd::utf8::{encode_scalar, encode_utf8};

verus! {

/// Number of bytes in the UTF-8 encoding of `c`.
pub open spec fn utf8_width(c: char) -> nat {
    encode_scalar(c as u32).len()
}

/// Number of UTF-16 code units that encode `c`.
pub open spec fn utf16_width(c: char) -> nat {
    if (c as u32) < 0x10000 {
        1
    } else {
        2
    }
}

/// Width of a char in UTF-8 bytes, as a function value.
pub open spec fn utf8_units() -> spec_fn(char) -> nat {
    |c: char| utf8_width(c)
}

/// Width of a char in UTF-16 code units, as a function value.
pub open spec fn utf16_units() -> spec_fn(char) -> nat {
    |c: char| utf16_width(c)
}

/// Every char takes at least one unit.
pub open spec fn positive(w: spec_fn(char) -> nat) -> bool {
    forall|c: char| #[trigger] w(c) >= 1
}

/// Length of `s` in the units of `w`.
pub open spec fn measure(s: Seq<char>, w: spec_fn(char) -> nat) -> nat
    decreases s.len(),
{
    if s.len() == 0 {
        0
    } else {
        w(s[0]) + measure(s.drop_first(), w)
    }
}

/// Offset, in the units of `w`, at which the char with index `i` starts.
pub open spec fn offset_of(s: Seq<char>, i: int, w: spec_fn(char) -> nat) -> nat {
    measure(s.take(i), w)
}

/// Index of the char that holds unit `u`; `s.len()` when `u` lies at or past the end.
pub open spec fn index_at(s: Seq<char>, u: int, w: spec_fn(char) -> nat) -> nat
    decreases s.len(),
{
    if s.len() == 0 || u < w(s[0]) {
        0
    } else {
        1 + index_at(s.drop_first(), u - w(s[0]), w)
    }
}

/// `u` is the offset at which a char of `s` starts, or the end of `s`.
pub open spec fn is_boundary(s: Seq<char>, u: int, w: spec_fn(char) -> nat) -> bool {
    0 <= u && offset_of(s, index_at(s, u, w) as int, w) == u
}

/// Length of `s` in UTF-8 bytes.
pub open spec fn byte_len(s: Seq<char>) -> nat {
    measure(s, utf8_units())
}

/// Byte offset at which the char with index `i` starts.
pub open spec fn byte_offset(s: Seq<char>, i: int) -> nat {
    offset_of(s, i, utf8_units())
}

/// Index of the char that holds byte `b`.
pub open spec fn char_at_byte(s: Seq<char>, b: int) -> nat {
    index_at(s, b, utf8_units())
}

/// Byte offset `b` falls between two chars of `s` (or at either end).
pub open spec fn on_char_boundary(s: Seq<char>, b: int) -> bool {
    is_boundary(s, b, utf8_units())
}

/// Length of `s` in UTF-16 code units.
pub open spec fn utf16_len(s: Seq<char>) -> nat {
    measure(s, utf16_units())
}

/// UTF-16 offset at which the char with index `i` starts.
pub open spec fn utf16_offset(s: Seq<char>, i: int) -> nat {
    offset_of(s, i, utf16_units())
}

/// Index of the char that holds UTF-16 code unit `u`.
pub open spec fn char_at_utf16(s: Seq<char>, u: int) -> nat {
    index_at(s, u, utf16_units())
}

/// UTF-16 offset `u` falls between two chars of `s` (or at either end).
pub open spec fn on_utf16_boundary(s: Seq<char>, u: int) -> bool {
    is_boundary(s, u, utf16_units())
}

/// Both encodings give every char a positive width.
pub proof fn lemma_widths_positive()
    ensures
        positive(utf8_units()),
        positive(utf16_units()),
{
    assert forall|c: char| #[trigger] utf8_units()(c) >= 1 by {
        let v = c as u32;
        assert(encode_scalar(v).len() >= 1);
    }
}

/// The length of a concatenation is the sum of the lengths.
pub proof fn lemma_measure_concat(a: Seq<char>, b: Seq<char>, w: spec_fn(char) -> nat)
    ensures
        measure(a + b, w) == measure(a, w) + measure(b, w),
    decreases a.len(),
{
    if a.len() > 0 {
        assert((a + b).drop_first() =~= a.drop_first() + b);
        lemma_measure_concat(a.drop_first(), b, w);
    } else {
        assert(a + b =~= b);
    }
}

/// A single char measures its own width.
pub proof fn lemma_measure_single(c: char, w: spec_fn(char) -> nat)
    ensures
        measure(seq![c], w) == w(c),
{
    assert(seq![c].drop_first() =~= Seq::<char>::empty());
    assert(measure(Seq::<char>::empty(), w) == 0);
}

/// Offsets of the first and last positions, and one step forward.
pub proof fn lemma_offset_basics(s: Seq<char>, i: int, w: spec_fn(char) -> nat)
    requires
        0 <= i <= s.len(),
    ensures
        offset_of(s, 0, w) == 0,
        offset_of(s, s.len() as int, w) == measure(s, w),
        i < s.len() ==> offset_of(s, i + 1, w) == offset_of(s, i, w) + w(s[i]),
{
    assert(s.take(0) =~= Seq::<char>::empty());
    assert(s.take(s.len() as int) =~= s);
    if i < s.len() {
        assert(s.take(i + 1) =~= s.take(i) + seq![s[i]]);
        lemma_measure_concat(s.take(i), seq![s[i]], w);
        lemma_measure_single(s[i], w);
    }
}

/// Offsets grow with the index, strictly when every width is positive.
pub proof fn lemma_offset_monotone(s: Seq<char>, i: int, j: int, w: spec_fn(char) -> nat)
    requires
        0 <= i <= j <= s.len(),
    ensures
        offset_of(s, i, w) <= offset_of(s, j, w) <= measure(s, w),
        positive(w) && i < j ==> offset_of(s, i, w) < offset_of(s, j, w),
    decreases j - i,
{
    lemma_offset_basics(s, i, w);
    if i < j {
        lemma_offset_monotone(s, i + 1, j, w);
    } else {
        assert(s =~= s.take(j) + s.skip(j));
        lemma_measure_concat(s.take(j), s.skip(j), w);
    }
}

/// With positive widths a text measures at least its number of chars.
pub proof fn lemma_measure_ge_len(s: Seq<char>, w: spec_fn(char) -> nat)
    requires
        positive(w),
    ensures
        measure(s, w) >= s.len(),
    decreases s.len(),
{
    if s.len() > 0 {
        assert(w(s[0]) >= 1);
        lemma_measure_ge_len(s.drop_first(), w);
    }
}

/// The chars between two indices measure the difference of their offsets.
pub proof fn lemma_measure_subrange(s: Seq<char>, i: int, j: int, w: spec_fn(char) -> nat)
    requires
        0 <= i <= j <= s.len(),
    ensures
        measure(s.subrange(i, j), w) == offset_of(s, j, w) - offset_of(s, i, w),
{
    assert(s.take(j) =~= s.take(i) + s.subrange(i, j));
    lemma_measure_concat(s.take(i), s.subrange(i, j), w);
}

/// A char's offset, looked up again, gives back the char's index.
pub proof fn lemma_index_of_offset(s: Seq<char>, i: int, w: spec_fn(char) -> nat)
    requires
        positive(w),
        0 <= i <= s.len(),
    ensures
        index_at(s, offset_of(s, i, w) as int, w) == i,
        is_boundary(s, offset_of(s, i, w) as int, w),
    decreases s.len(),
{
    if i == 0 {
        assert(s.take(0) =~= Seq::<char>::empty());
        if s.len() > 0 {
            assert(w(s[0]) >= 1);
        }
    } else {
        let t = s.drop_first();
        assert(s.take(i).drop_first() =~= t.take(i - 1));
        assert(s.take(i)[0] == s[0]);
        lemma_index_of_offset(t, i - 1, w);
    }
}

/// Where a unit lies: the char that holds it starts at or before it and ends after it.
pub proof fn lemma_index_at_bounds(s: Seq<char>, u: int, w: spec_fn(char) -> nat)
    requires
        positive(w),
        0 <= u,
    ensures
        index_at(s, u, w) <= s.len(),
        offset_of(s, index_at(s, u, w) as int, w) <= u,
        index_at(s, u, w) < s.len() ==> u < offset_of(s, index_at(s, u, w) + 1int, w),
        index_at(s, u, w) == s.len() <==> u >= measure(s, w),
    decreases s.len(),
{
    let k = index_at(s, u, w) as int;
    if s.len() == 0 {
        assert(s.take(0) =~= Seq::<char>::empty());
    } else if u < w(s[0]) {
        assert(s.take(0) =~= Seq::<char>::empty());
        lemma_offset_basics(s, 0, w);
        assert(measure(s.drop_first(), w) >= 0);
    } else {
        let t = s.drop_first();
        lemma_index_at_bounds(t, u - w(s[0]), w);
        assert(s.take(k).drop_first() =~= t.take(k - 1));
        if k < s.len() {
            assert(s.take(k + 1).drop_first() =~= t.take(k));
        }
    }
}

/// Looking a unit up never goes backwards as the unit grows.
pub proof fn lemma_index_at_monotone(s: Seq<char>, u: int, v: int, w: spec_fn(char) -> nat)
    requires
        u <= v,
    ensures
        index_at(s, u, w) <= index_at(s, v, w),
    decreases s.len(),
{
    if s.len() > 0 && u >= w(s[0]) {
        lemma_index_at_monotone(s.drop_first(), u - w(s[0]), v - w(s[0]), w);
    }
}

/// The byte length of a text is the length of its UTF-8 encoding.
pub proof fn lemma_encode_len(s: Seq<char>)
    ensures
        encode_utf8(s).len() == byte_len(s),
    decreases s.len(),
{
    if s.len() > 0 {
        lemma_encode_len(s.drop_first());
    }
}

} // verus!
