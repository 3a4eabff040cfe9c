//! Marked text: a compact way to write a text with cursors and selections in
//! it. `ˇ` marks a cursor; `«` and `»` enclose a selection, with `ˇ` at the
//! end that moves. Ranges are byte ranges of the text without the markers.

use vstd::prelude::*;
use std::ops::Range;
use crate::offsets::{
    byte_len, lemma_measure_concat, lemma_measure_single, on_char_boundary, utf8_units, utf8_width,
};
use crate::text::text_inserted;

verus! {

/// Where parsing stands: the text so far, the ranges found, the start of an
/// open selection, and a cursor marked inside it.
pub struct MarkState {
    pub text: Seq<char>,
    pub ranges: Seq<(int, int)>,
    pub open: Option<int>,
    pub cursor: Option<int>,
}

/// One char of marked text; `None` where the markers do not fit together.
pub open spec fn mark_step(st: MarkState, c: char, directed: bool) -> Option<MarkState> {
    let here = byte_len(st.text) as int;
    if c == 'ˇ' {
        match st.open {
            Some(_) => if st.cursor is Some {
                None
            } else {
                Some(MarkState { cursor: Some(here), ..st })
            },
            None => Some(MarkState { ranges: st.ranges.push((here, here)), ..st }),
        }
    } else if c == '«' {
        if st.open is Some {
            None
        } else {
            Some(MarkState { open: Some(here), ..st })
        }
    } else if c == '»' {
        match st.open {
            None => None,
            Some(start) => match st.cursor {
                Some(cur) => if cur == start {
                    Some(MarkState { ranges: st.ranges.push((here, start)), open: None, cursor: None, ..st })
                } else if cur != here {
                    None
                } else {
                    Some(MarkState { ranges: st.ranges.push((start, here)), open: None, cursor: None, ..st })
                },
                None => if directed {
                    None
                } else {
                    Some(MarkState { ranges: st.ranges.push((start, here)), open: None, cursor: None, ..st })
                },
            },
        }
    } else {
        Some(MarkState { text: st.text.push(c), ..st })
    }
}

/// The state after all of `s`; `None` where the markers do not fit together.
pub open spec fn mark_run(s: Seq<char>, directed: bool) -> Option<MarkState>
    decreases s.len(),
{
    if s.len() == 0 {
        Some(MarkState { text: Seq::empty(), ranges: Seq::empty(), open: None, cursor: None })
    } else {
        match mark_run(s.drop_last(), directed) {
            Some(st) => mark_step(st, s.last(), directed),
            None => None,
        }
    }
}

/// The text without its markers never has more bytes than the marked text.
pub proof fn lemma_mark_run_len(s: Seq<char>, directed: bool)
    requires
        mark_run(s, directed) is Some,
    ensures
        byte_len(mark_run(s, directed)->Some_0.text) <= byte_len(s),
    decreases s.len(),
{
    if s.len() > 0 {
        let t = s.drop_last();
        lemma_mark_run_len(t, directed);
        assert(s == t + seq![s.last()]);
        lemma_measure_concat(t, seq![s.last()], utf8_units());
        lemma_measure_single(s.last(), utf8_units());
        let st = mark_run(t, directed)->Some_0;
        lemma_measure_concat(st.text, seq![s.last()], utf8_units());
        assert(st.text.push(s.last()) == st.text + seq![s.last()]);
    }
}

/// Relies on `String::push`: the char goes on the end.
#[verifier::external_body]
fn push_char(s: &mut String, c: char)
    ensures
        final(s)@ == old(s)@.push(c),
{
    s.push(c)
}

/// Number of bytes in the UTF-8 encoding of `c`.
fn char_utf8_len(c: char) -> (n: usize)
    ensures
        n == utf8_width(c),
{
    proof {
        vstd::utf8::char_is_scalar(c);
    }
    let v = c as u32;
    if v < 0x80 {
        1
    } else if v < 0x800 {
        2
    } else if v < 0x10000 {
        3
    } else {
        4
    }
}

/// The text without its markers, and the ranges they mark, in order. With
/// `ranges_are_directed` every selection must show which end moves.
pub fn marked_text_ranges(marked_text: &str, ranges_are_directed: bool) -> (r: (
    String,
    Vec<Range<usize>>,
))
    requires
        mark_run(marked_text@, ranges_are_directed) is Some,
        byte_len(marked_text@) <= usize::MAX,
    ensures
        ({
            let st = mark_run(marked_text@, ranges_are_directed)->Some_0;
            &&& r.0@ == st.text
            &&& ranges_match(r.1@, st.ranges)
        }),
{
    let ghost s = marked_text@;
    let mut unmarked = String::new();
    let mut unmarked_len: usize = 0;
    let mut ranges: Vec<Range<usize>> = Vec::new();
    let mut current_range_start: Option<usize> = None;
    let mut current_range_cursor: Option<usize> = None;
    proof {
        assert(s.take(0) =~= Seq::<char>::empty());
    }
    for c in it: marked_text.chars()
        invariant
            s == marked_text@,
            it.seq() == s,
            byte_len(s) <= usize::MAX,
            mark_run(s, ranges_are_directed) is Some,
            state_matches(
                mark_run(s.take(it.index() as int), ranges_are_directed),
                unmarked@,
                unmarked_len,
                ranges@,
                current_range_start,
                current_range_cursor,
            ),
    {
        let ghost i = it.index() as int;
        let ghost st = mark_run(s.take(i), ranges_are_directed)->Some_0;
        let ghost old_ranges = ranges@;
        proof {
            lemma_mark_run_prefix_some(s, i + 1, ranges_are_directed);
            assert(s.take(i + 1).drop_last() =~= s.take(i));
            assert(s.take(i + 1).last() == c);
            lemma_mark_run_len(s.take(i + 1), ranges_are_directed);
            crate::offsets::lemma_offset_monotone(s, i + 1, s.len() as int, utf8_units());
        }
        if c == 'ˇ' {
            match current_range_start {
                Some(_) => {
                    current_range_cursor = Some(unmarked_len);
                },
                None => {
                    ranges.push(Range { start: unmarked_len, end: unmarked_len });
                },
            }
        } else if c == '«' {
            current_range_start = Some(unmarked_len);
        } else if c == '»' {
            match current_range_start {
                Some(start) => {
                    let reversed = match current_range_cursor {
                        Some(cursor) => cursor == start,
                        None => false,
                    };
                    if reversed {
                        ranges.push(Range { start: unmarked_len, end: start });
                    } else {
                        ranges.push(Range { start, end: unmarked_len });
                    }
                    current_range_start = None;
                    current_range_cursor = None;
                },
                None => {},
            }
        } else {
            let w = char_utf8_len(c);
            proof {
                lemma_measure_concat(st.text, seq![c], utf8_units());
                lemma_measure_single(c, utf8_units());
                assert(st.text.push(c) == st.text + seq![c]);
            }
            push_char(&mut unmarked, c);
            unmarked_len = unmarked_len + w;
        }
        proof {
            let next = mark_run(s.take(i + 1), ranges_are_directed);
            assert(next == mark_step(st, c, ranges_are_directed));
            let nst = next->Some_0;
            assert(unmarked@ == nst.text);
            assert(unmarked_len == byte_len(nst.text));
            assert(ranges@.len() == nst.ranges.len());
            assert forall|k: int| 0 <= k < ranges@.len() implies #[trigger] ranges@[k].start == nst.ranges[k].0
                && ranges@[k].end == nst.ranges[k].1 by {
                if k < st.ranges.len() {
                    assert(nst.ranges[k] == st.ranges[k]);
                    assert(ranges@[k] == old_ranges[k]);
                    assert(old_ranges[k].start == st.ranges[k].0);
                }
            }
            assert(state_matches(next, unmarked@, unmarked_len, ranges@, current_range_start, current_range_cursor));
        }
    }
    proof {
        assert(s.take(s.len() as int) =~= s);
        assert(state_matches(
            mark_run(s, ranges_are_directed),
            unmarked@,
            unmarked_len,
            ranges@,
            current_range_start,
            current_range_cursor,
        ));
    }
    (unmarked, ranges)
}

/// The ranges are the pairs of `pairs`, bound for bound.
pub open spec fn ranges_match(ranges: Seq<Range<usize>>, pairs: Seq<(int, int)>) -> bool {
    &&& ranges.len() == pairs.len()
    &&& forall|k: int|
        0 <= k < ranges.len() ==> #[trigger] ranges[k].start == pairs[k].0 && ranges[k].end
            == pairs[k].1
}

/// The parse state `st` is `Some` and the executable state agrees with it.
pub open spec fn state_matches(
    st: Option<MarkState>,
    text: Seq<char>,
    text_len: usize,
    ranges: Seq<Range<usize>>,
    open: Option<usize>,
    cursor: Option<usize>,
) -> bool {
    &&& st is Some
    &&& text == st->Some_0.text
    &&& text_len == byte_len(st->Some_0.text)
    &&& ranges_match(ranges, st->Some_0.ranges)
    &&& match st->Some_0.open {
        Some(v) => open is Some && open->Some_0 as int == v,
        None => open is None,
    }
    &&& match st->Some_0.cursor {
        Some(v) => cursor is Some && cursor->Some_0 as int == v,
        None => cursor is None,
    }
}

/// Every prefix of marked text that parses has prefixes that parse.
proof fn lemma_mark_run_prefix_some(s: Seq<char>, n: int, directed: bool)
    requires
        0 <= n <= s.len(),
        mark_run(s, directed) is Some,
    ensures
        mark_run(s.take(n), directed) is Some,
    decreases s.len() - n,
{
    if n < s.len() {
        lemma_mark_run_prefix_some(s, n + 1, directed);
        assert(s.take(n + 1).drop_last() == s.take(n));
    } else {
        assert(s.take(n) == s);
    }
}

/// Relies on `String::insert_str`: the text goes in at the byte index, which
/// must be a char boundary.
#[verifier::external_body]
fn insert_str_at(s: &mut String, idx: usize, text: &str)
    requires
        on_char_boundary(old(s)@, idx as int),
    ensures
        final(s)@ == text_inserted(old(s)@, idx as int, text@),
{
    s.insert_str(idx, text)
}

/// `s` with the markers of range (`a`, `b`) put in: `«` and `»` around a
/// selection (with `ˇ` at its moving end when cursors are shown), `ˇ` at a cursor.
pub open spec fn mark_range(s: Seq<char>, a: int, b: int, indicate_cursors: bool) -> Seq<char> {
    if a == b {
        text_inserted(s, a, seq!['ˇ'])
    } else if indicate_cursors {
        if a < b {
            text_inserted(text_inserted(s, b, seq!['ˇ', '»']), a, seq!['«'])
        } else {
            text_inserted(text_inserted(s, a, seq!['»']), b, seq!['«', 'ˇ'])
        }
    } else {
        text_inserted(text_inserted(s, b, seq!['»']), a, seq!['«'])
    }
}

/// Every marker of range (`a`, `b`) goes in at a char boundary.
pub open spec fn mark_range_fits(s: Seq<char>, a: int, b: int, indicate_cursors: bool) -> bool {
    if a == b {
        on_char_boundary(s, a)
    } else if indicate_cursors {
        if a < b {
            on_char_boundary(s, b) && on_char_boundary(text_inserted(s, b, seq!['ˇ', '»']), a)
        } else {
            on_char_boundary(s, a) && on_char_boundary(text_inserted(s, a, seq!['»']), b)
        }
    } else {
        on_char_boundary(s, b) && on_char_boundary(text_inserted(s, b, seq!['»']), a)
    }
}

/// `s` with the markers of every range, the last range first.
pub open spec fn mark_ranges(s: Seq<char>, ranges: Seq<Range<usize>>, indicate_cursors: bool) -> Seq<
    char,
>
    decreases ranges.len(),
{
    if ranges.len() == 0 {
        s
    } else {
        let r = ranges.last();
        mark_ranges(
            mark_range(s, r.start as int, r.end as int, indicate_cursors),
            ranges.drop_last(),
            indicate_cursors,
        )
    }
}

/// Every marker of every range goes in at a char boundary, the last range first.
pub open spec fn mark_ranges_fit(s: Seq<char>, ranges: Seq<Range<usize>>, indicate_cursors: bool) -> bool
    decreases ranges.len(),
{
    if ranges.len() == 0 {
        true
    } else {
        let r = ranges.last();
        mark_range_fits(s, r.start as int, r.end as int, indicate_cursors) && mark_ranges_fit(
            mark_range(s, r.start as int, r.end as int, indicate_cursors),
            ranges.drop_last(),
            indicate_cursors,
        )
    }
}

/// Writes the markers of `ranges` into `unmarked_text`.
pub fn generate_marked_text(unmarked_text: &str, ranges: &[Range<usize>], indicate_cursors: bool) -> (r: String)
    requires
        mark_ranges_fit(unmarked_text@, ranges@, indicate_cursors),
    ensures
        r@ == mark_ranges(unmarked_text@, ranges@, indicate_cursors),
{
    let mut marked = unmarked_text.to_owned();
    let ghost rs = ranges@;
    let mut j = ranges.len();
    proof {
        assert(rs.take(j as int) =~= rs);
    }
    while j > 0
        invariant
            j <= rs.len(),
            rs == ranges@,
            mark_ranges(unmarked_text@, rs, indicate_cursors) == mark_ranges(marked@, rs.take(j as int), indicate_cursors),
            mark_ranges_fit(marked@, rs.take(j as int), indicate_cursors),
        decreases j,
    {
        let range = &ranges[j - 1];
        let ghost before = marked@;
        proof {
            assert(rs.take(j as int).last() == rs[j - 1]);
            assert(rs.take(j as int).drop_last() =~= rs.take(j - 1));
            reveal_strlit("ˇ");
            reveal_strlit("«");
            reveal_strlit("»");
            reveal_strlit("ˇ»");
            reveal_strlit("«ˇ");
            assert("ˇ"@ =~= seq!['ˇ']);
            assert("«"@ =~= seq!['«']);
            assert("»"@ =~= seq!['»']);
            assert("ˇ»"@ =~= seq!['ˇ', '»']);
            assert("«ˇ"@ =~= seq!['«', 'ˇ']);
        }
        if range.start == range.end {
            insert_str_at(&mut marked, range.start, "ˇ");
        } else if indicate_cursors {
            if range.start < range.end {
                insert_str_at(&mut marked, range.end, "ˇ»");
                insert_str_at(&mut marked, range.start, "«");
            } else {
                insert_str_at(&mut marked, range.start, "»");
                insert_str_at(&mut marked, range.end, "«ˇ");
            }
        } else {
            insert_str_at(&mut marked, range.end, "»");
            insert_str_at(&mut marked, range.start, "«");
        }
        proof {
            assert(marked@ == mark_range(before, range.start as int, range.end as int, indicate_cursors));
        }
        j = j - 1;
    }
    marked
}

} // verus!
