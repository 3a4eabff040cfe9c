//! The line structure of a text: lines end at each line feed, and the last
//! line may lack one. A `\r` before a line feed belongs to its line's
//! terminator when the line's text is read.

use vstd::prelude::*;
use crate::offsets::{
    byte_len, byte_offset, char_at_byte, lemma_index_at_bounds, lemma_offset_basics,
    lemma_offset_monotone, lemma_widths_positive, utf8_units,
};

verus! {

/// Number of line feeds in `s`.
pub open spec fn lf_count(s: Seq<char>) -> nat
    decreases s.len(),
{
    if s.len() == 0 {
        0
    } else {
        (if s[0] == '\n' {
            1nat
        } else {
            0nat
        }) + lf_count(s.drop_first())
    }
}

/// Number of lines in `s`: one more than its line feeds.
pub open spec fn line_count(s: Seq<char>) -> nat {
    lf_count(s) + 1
}

/// Char index at which line `l` starts: just after the `l`-th line feed.
/// A line past the last one starts at the end of the text.
pub open spec fn line_start(s: Seq<char>, l: nat) -> nat
    decreases s.len(),
{
    if l == 0 || s.len() == 0 {
        0
    } else if s[0] == '\n' {
        1 + line_start(s.drop_first(), (l - 1) as nat)
    } else {
        1 + line_start(s.drop_first(), l)
    }
}

/// Byte offset at which line `l` starts.
pub open spec fn line_start_byte(s: Seq<char>, l: nat) -> nat {
    byte_offset(s, line_start(s, l) as int)
}

/// Row of the line that holds byte `b`: the line feeds before it.
pub open spec fn row_of_byte(s: Seq<char>, b: int) -> nat {
    lf_count(s.take(char_at_byte(s, b) as int))
}

/// The chars of line `l`, terminator included.
pub open spec fn raw_line(s: Seq<char>, l: nat) -> Seq<char> {
    s.subrange(line_start(s, l) as int, line_start(s, l + 1) as int)
}

/// The text of line `l`: a final line feed is dropped, and a `\r` just before it too.
pub open spec fn line_text(s: Seq<char>, l: nat) -> Seq<char> {
    let raw = raw_line(s, l);
    if raw.len() > 0 && raw.last() == '\n' {
        let t = raw.drop_last();
        if t.len() > 0 && t.last() == '\r' {
            t.drop_last()
        } else {
            t
        }
    } else {
        raw
    }
}

/// Line starts lie within the text and grow with the line number; past the
/// last line they stay at the end.
pub proof fn lemma_line_start_bounds(s: Seq<char>, l: nat, m: nat)
    requires
        l <= m,
    ensures
        line_start(s, l) <= line_start(s, m) <= s.len(),
        l > lf_count(s) ==> line_start(s, l) == s.len(),
    decreases s.len(),
{
    if s.len() > 0 && m > 0 {
        let t = s.drop_first();
        if s[0] == '\n' {
            if l > 0 {
                lemma_line_start_bounds(t, (l - 1) as nat, (m - 1) as nat);
            } else {
                lemma_line_start_bounds(t, 0, (m - 1) as nat);
            }
        } else {
            lemma_line_start_bounds(t, l, m);
        }
    }
}

/// A line before the last one is not empty: it holds at least its line feed.
pub proof fn lemma_line_start_strict(s: Seq<char>, r: nat)
    requires
        r < lf_count(s),
    ensures
        line_start(s, r) < line_start(s, r + 1),
    decreases s.len(),
{
    let t = s.drop_first();
    if s[0] == '\n' {
        if r > 0 {
            lemma_line_start_strict(t, (r - 1) as nat);
        }
    } else {
        if r > 0 {
            lemma_line_start_strict(t, r);
        }
    }
}

/// Line start offsets in bytes grow with the line number and stay within the text.
pub proof fn lemma_line_start_byte_monotone(s: Seq<char>, l: nat, m: nat)
    requires
        l <= m,
    ensures
        line_start_byte(s, l) <= line_start_byte(s, m) <= byte_len(s),
{
    lemma_line_start_bounds(s, l, m);
    lemma_offset_monotone(s, line_start(s, l) as int, line_start(s, m) as int, utf8_units());
}

/// The line that holds char index `k` starts at or before `k` and the next
/// line starts after it.
pub proof fn lemma_row_of_index(s: Seq<char>, k: int)
    requires
        0 <= k <= s.len(),
    ensures
        lf_count(s.take(k)) <= lf_count(s),
        line_start(s, lf_count(s.take(k))) <= k,
        k < s.len() ==> k < line_start(s, lf_count(s.take(k)) + 1),
    decreases s.len(),
{
    let r = lf_count(s.take(k));
    if k == 0 {
        assert(s.take(0) =~= Seq::<char>::empty());
        lemma_line_start_bounds(s, 0, lf_count(s));
    } else {
        let t = s.drop_first();
        assert(s.take(k).drop_first() =~= t.take(k - 1));
        assert(s.take(k)[0] == s[0]);
        lemma_row_of_index(t, k - 1);
    }
}

/// Round trip of a byte offset through its line and column: the line that
/// holds byte `b` spans it.
pub proof fn lemma_row_of_byte(s: Seq<char>, b: int)
    requires
        0 <= b <= byte_len(s),
    ensures
        row_of_byte(s, b) <= lf_count(s),
        line_start_byte(s, row_of_byte(s, b)) <= b <= line_start_byte(s, row_of_byte(s, b) + 1),
        row_of_byte(s, b) < lf_count(s) ==> b < line_start_byte(s, row_of_byte(s, b) + 1),
{
    lemma_widths_positive();
    let w = utf8_units();
    let k = char_at_byte(s, b) as int;
    let r = row_of_byte(s, b);
    lemma_index_at_bounds(s, b, w);
    lemma_row_of_index(s, k);
    lemma_line_start_bounds(s, r, r + 1);
    lemma_offset_monotone(s, line_start(s, r) as int, k, w);
    if k < s.len() {
        lemma_offset_monotone(s, k + 1, line_start(s, r + 1) as int, w);
    } else {
        assert(s.take(k) =~= s);
        lemma_offset_basics(s, 0, w);
        assert(line_start(s, r + 1) == s.len()) by {
            assert(s.take(k) =~= s);
            lemma_line_start_bounds(s, r + 1, r + 1);
        }
    }
}

} // verus!
