//! Splitting a line of text into runs of uniform formatting, for the
//! renderer that shapes and paints them.

use vstd::prelude::*;
use std::ops::Range;
use crate::format_span::{Attribute, FormatSpan};

verus! {

/// A run of text with one formatting throughout.
#[derive(Clone, Copy, Debug, PartialEq, Eq, Structural)]
pub struct StyleRun {
    pub len: usize,
    pub bold: bool,
    pub italic: bool,
    pub underline: bool,
}

/// The smaller of `x` and `len`.
pub open spec fn clamp_to(x: int, len: int) -> int {
    if x < len {
        x
    } else {
        len
    }
}

/// `sp` sets some attribute and has a bound, clamped to `len`, at `x`.
pub open spec fn cuts_at(sp: FormatSpan, len: int, x: int) -> bool {
    sp.formatted() && (x == clamp_to(sp.range.start as int, len) || x == clamp_to(
        sp.range.end as int,
        len,
    ))
}

/// A run boundary: the ends of the text and the clamped bounds of the
/// formatted spans.
pub open spec fn is_cut(spans: Seq<FormatSpan>, len: int, x: int) -> bool {
    x == 0 || x == len || exists|i: int| 0 <= i < spans.len() && #[trigger] cuts_at(spans[i], len, x)
}

/// Some span that spans all of [`x`, `y`) sets attribute `a`.
pub open spec fn formatted_over(spans: Seq<FormatSpan>, a: Attribute, x: int, y: int) -> bool {
    exists|i: int|
        0 <= i < spans.len() && #[trigger] spans[i].asserts(a) && spans[i].range.start <= x
            && spans[i].range.end >= y
}

/// Offset at which run `k` starts: the lengths of the runs before it.
pub open spec fn run_start(runs: Seq<StyleRun>, k: int) -> int
    decreases k,
{
    if k <= 0 {
        0
    } else {
        run_start(runs, k - 1) + runs[k - 1].len
    }
}

/// Strictly increasing.
pub open spec fn increasing(v: Seq<usize>) -> bool {
    forall|i: int, j: int| 0 <= i < j < v.len() ==> #[trigger] v[i] < #[trigger] v[j]
}

/// Puts `x` into the increasing `v` unless it is there already.
fn insert_position(v: &mut Vec<usize>, x: usize)
    requires
        increasing(old(v)@),
    ensures
        increasing(final(v)@),
        forall|y: usize| #[trigger] final(v)@.contains(y) <==> (old(v)@.contains(y) || y == x),
{
    let mut j: usize = 0;
    while j < v.len() && v[j] < x
        invariant
            j <= v@.len(),
            forall|i: int| 0 <= i < j ==> #[trigger] v@[i] < x,
        decreases v@.len() - j,
    {
        j = j + 1;
    }
    if j < v.len() && v[j] == x {
        return;
    }
    let ghost before = v@;
    v.insert(j, x);
    proof {
        before.insert_ensures(j as int, x);
        assert forall|a: int, b: int| 0 <= a < b < v@.len() implies #[trigger] v@[a] < #[trigger] v@[b] by {
            if b < j {
            } else if b == j {
            } else if a < j {
                assert(v@[b] == before[b - 1]);
                assert(x <= before[j as int]);
                if b - 1 > j {
                    assert(before[j as int] < before[b - 1]);
                }
            } else if a == j {
                assert(v@[b] == before[b - 1]);
                if b - 1 > j {
                    assert(before[j as int] < before[b - 1]);
                }
            } else {
                assert(v@[a] == before[a - 1]);
                assert(v@[b] == before[b - 1]);
            }
        }
        assert forall|y: usize| #[trigger] v@.contains(y) <==> (before.contains(y) || y == x) by {
            if v@.contains(y) {
                let k = choose|k: int| 0 <= k < v@.len() && v@[k] == y;
                if k < j {
                    assert(before[k] == y);
                } else if k > j {
                    assert(before[k - 1] == y);
                }
            }
            if before.contains(y) {
                let k = choose|k: int| 0 <= k < before.len() && before[k] == y;
                if k < j {
                    assert(v@[k] == y);
                } else {
                    assert(v@[k + 1] == y);
                }
            }
            if y == x {
                assert(v@[j as int] == y);
            }
        }
    }
}

/// Whether some span that spans all of [`start`, `end`) sets attribute `a`.
fn any_span_sets(spans: &[FormatSpan], a: Attribute, start: usize, end: usize) -> (b: bool)
    ensures
        b == formatted_over(spans@, a, start as int, end as int),
{
    let mut i: usize = 0;
    while i < spans.len()
        invariant
            i <= spans@.len(),
            forall|j: int|
                0 <= j < i ==> !(#[trigger] spans@[j].asserts(a) && spans@[j].range.start <= start
                    && spans@[j].range.end >= end),
        decreases spans@.len() - i,
    {
        let sp = &spans[i];
        if sp.sets(a) && sp.range.start <= start && sp.range.end >= end {
            return true;
        }
        i = i + 1;
    }
    false
}

/// The run boundaries of a text of `text_len` bytes under `format_spans`, in
/// increasing order: its ends and the clamped bounds of the formatted spans.
fn cut_positions(text_len: usize, format_spans: &[FormatSpan]) -> (p: Vec<usize>)
    requires
        text_len > 0,
    ensures
        increasing(p@),
        p@.len() >= 2,
        p@[0] == 0,
        p@[p@.len() - 1] == text_len,
        forall|x: usize| #[trigger] p@.contains(x) <==> is_cut(format_spans@, text_len as int, x as int),
{
    let ghost spans = format_spans@;
    let ghost len = text_len as int;
    let mut positions: Vec<usize> = Vec::new();
    insert_position(&mut positions, 0);
    insert_position(&mut positions, text_len);
    let mut i: usize = 0;
    while i < format_spans.len()
        invariant
            i <= spans.len(),
            spans == format_spans@,
            len == text_len,
            increasing(positions@),
            forall|x: usize| #[trigger] positions@.contains(x) <==> (x == 0 || x == text_len || exists|j: int| 0 <= j < i && #[trigger] cuts_at(spans[j], len, x as int)),
        decreases spans.len() - i,
    {
        let sp = &format_spans[i];
        let start = if sp.range.start < text_len {
            sp.range.start
        } else {
            text_len
        };
        let end = if sp.range.end < text_len {
            sp.range.end
        } else {
            text_len
        };
        let ghost before = positions@;
        let formatted = sp.has_formatting();
        if formatted {
            insert_position(&mut positions, start);
            insert_position(&mut positions, end);
        }
        proof {
            assert forall|x: usize| #[trigger] positions@.contains(x) <==> (x == 0 || x == text_len
                || exists|j: int| 0 <= j < i + 1 && #[trigger] cuts_at(spans[j], len, x as int)) by {
                if formatted && (x == start || x == end) {
                    assert(cuts_at(spans[i as int], len, x as int));
                }
                if exists|j: int| 0 <= j < i + 1 && #[trigger] cuts_at(spans[j], len, x as int) {
                    let j = choose|j: int| 0 <= j < i + 1 && #[trigger] cuts_at(spans[j], len, x as int);
                    if j < i {
                        assert(before.contains(x));
                    } else {
                        assert(x == start || x == end);
                    }
                }
                if before.contains(x) && x != 0 && x != text_len {
                    let j = choose|j: int| 0 <= j < i && #[trigger] cuts_at(spans[j], len, x as int);
                    assert(0 <= j < i + 1 && cuts_at(spans[j], len, x as int));
                }
            }
        }
        i = i + 1;
    }
    let ghost p = positions@;
    proof {
        assert(p.contains(0usize));
        assert(p.contains(text_len));
        // every position lies within [0, text_len]
        assert forall|k: int| 0 <= k < p.len() implies #[trigger] p[k] <= text_len by {
            assert(p.contains(p[k]));
            if p[k] != 0 && p[k] != text_len {
                let j = choose|j: int| 0 <= j < spans.len() && #[trigger] cuts_at(spans[j], len, p[k] as int);
            }
        }
        let k0 = choose|k: int| 0 <= k < p.len() && p[k] == 0usize;
        if k0 > 0 {
            assert(p[0] < p[k0]);
        }
        let kn = choose|k: int| 0 <= k < p.len() && p[k] == text_len;
        if kn < p.len() - 1 {
            assert(p[kn] < p[p.len() - 1]);
        }
        assert(kn == p.len() - 1);
        assert(k0 == 0);
        assert(p.len() >= 2);
        assert forall|x: usize| #[trigger] p.contains(x) <==> is_cut(spans, len, x as int) by {
            if is_cut(spans, len, x as int) && x != 0 && x != text_len {
                let j = choose|j: int| 0 <= j < spans.len() && #[trigger] cuts_at(spans[j], len, x as int);
            }
        }
    }
    positions
}

/// Splits a text of `text_len` bytes into runs at the bounds of its formatted
/// spans (clamped to the text); each run carries the attributes of the spans
/// that span all of it. Without spans, or without text, it is one plain run.
#[verifier::rlimit(40)]
pub fn style_runs(text_len: usize, format_spans: &[FormatSpan]) -> (runs: Vec<StyleRun>)
    ensures
        format_spans@.len() == 0 || text_len == 0 ==> runs@ == seq![
            StyleRun { len: text_len, bold: false, italic: false, underline: false },
        ],
        format_spans@.len() > 0 && text_len > 0 ==> {
            &&& runs@.len() >= 1
            &&& run_start(runs@, runs@.len() as int) == text_len
            &&& forall|k: int| 0 <= k < runs@.len() ==> #[trigger] runs@[k].len > 0
            &&& forall|x: int|
                is_cut(format_spans@, text_len as int, x) <==> exists|k: int|
                    0 <= k <= runs@.len() && #[trigger] run_start(runs@, k) == x
            &&& forall|k: int|
                0 <= k < runs@.len() ==> {
                    let (x, y) = (run_start(runs@, k), run_start(runs@, k + 1));
                    &&& #[trigger] runs@[k].bold == formatted_over(format_spans@, Attribute::Bold, x, y)
                    &&& runs@[k].italic == formatted_over(format_spans@, Attribute::Italic, x, y)
                    &&& runs@[k].underline == formatted_over(format_spans@, Attribute::Underline, x, y)
                }
        },
{
    if format_spans.len() == 0 || text_len == 0 {
        let mut runs = Vec::new();
        runs.push(StyleRun { len: text_len, bold: false, italic: false, underline: false });
        return runs;
    }
    let positions = cut_positions(text_len, format_spans);
    let ghost p = positions@;
    let ghost spans = format_spans@;
    let ghost len = text_len as int;
    let mut runs: Vec<StyleRun> = Vec::new();
    let mut idx: usize = 0;
    while idx < positions.len() - 1
        invariant
            positions@ == p,
            p.len() >= 2,
            p[p.len() - 1] == text_len,
            text_len > 0,
            len == text_len,
            forall|x: usize| #[trigger] p.contains(x) <==> is_cut(spans, len, x as int),
            spans == format_spans@,
            increasing(p),
            p[0] == 0,
            idx + 1 <= p.len(),
            runs@.len() == idx,
            forall|k: int| 0 <= k <= idx ==> #[trigger] run_start(runs@, k) == p[k],
            forall|k: int| 0 <= k < idx ==> #[trigger] runs@[k].len > 0,
            forall|k: int|
                0 <= k < idx ==> {
                    let (x, y) = (run_start(runs@, k), run_start(runs@, k + 1));
                    &&& #[trigger] runs@[k].bold == formatted_over(spans, Attribute::Bold, x, y)
                    &&& runs@[k].italic == formatted_over(spans, Attribute::Italic, x, y)
                    &&& runs@[k].underline == formatted_over(spans, Attribute::Underline, x, y)
                },
        decreases p.len() - idx,
    {
        let start = positions[idx];
        let end = positions[idx + 1];
        let run = StyleRun {
            len: end - start,
            bold: any_span_sets(format_spans, Attribute::Bold, start, end),
            italic: any_span_sets(format_spans, Attribute::Italic, start, end),
            underline: any_span_sets(format_spans, Attribute::Underline, start, end),
        };
        let ghost before = runs@;
        runs.push(run);
        proof {
            assert forall|k: int| 0 <= k <= idx + 1 implies #[trigger] run_start(runs@, k) == p[k] by {
                lemma_run_start_prefix(before, runs@, k);
            }
        }
        idx = idx + 1;
    }
    proof {
        assert(runs@.len() == p.len() - 1);
        assert(run_start(runs@, runs@.len() as int) == p[p.len() - 1]);
        assert forall|x: int| is_cut(spans, len, x) <==> exists|k: int| 0 <= k <= runs@.len() && #[trigger] run_start(runs@, k) == x by {
            if is_cut(spans, len, x) {
                assert(0 <= x <= len) by {
                    if x != 0 && x != len {
                        let j = choose|j: int| 0 <= j < spans.len() && #[trigger] cuts_at(spans[j], len, x);
                    }
                }
                assert(p.contains(x as usize));
                let k = choose|k: int| 0 <= k < p.len() && p[k] == x as usize;
                assert(run_start(runs@, k) == x);
            }
            if exists|k: int| 0 <= k <= runs@.len() && #[trigger] run_start(runs@, k) == x {
                let k = choose|k: int| 0 <= k <= runs@.len() && #[trigger] run_start(runs@, k) == x;
                assert(p.contains(p[k]));
            }
        }
        assert forall|k: int| 0 <= k < runs@.len() implies {
            let (x, y) = (run_start(runs@, k), run_start(runs@, k + 1));
            &&& #[trigger] runs@[k].bold == formatted_over(format_spans@, Attribute::Bold, x, y)
            &&& runs@[k].italic == formatted_over(format_spans@, Attribute::Italic, x, y)
            &&& runs@[k].underline == formatted_over(format_spans@, Attribute::Underline, x, y)
        } by {}
        assert(runs@.len() >= 1);
        assert(run_start(runs@, runs@.len() as int) == text_len);
        assert(forall|k: int| 0 <= k < runs@.len() ==> #[trigger] runs@[k].len > 0);
    }
    runs
}

/// Extending the runs keeps the start of every earlier run.
proof fn lemma_run_start_prefix(before: Seq<StyleRun>, after: Seq<StyleRun>, k: int)
    requires
        after.len() == before.len() + 1,
        forall|i: int| 0 <= i < before.len() ==> after[i] == before[i],
        0 <= k <= after.len(),
    ensures
        k <= before.len() ==> run_start(after, k) == run_start(before, k),
        k == after.len() ==> run_start(after, k) == run_start(before, before.len() as int) + after[before.len() as int].len,
    decreases k,
{
    if k > 0 {
        lemma_run_start_prefix(before, after, k - 1);
    }
}

/// The spans of one line, clipped to it and made relative to its start:
/// those that meet [`line_start`, `line_start + line_len`).
pub fn line_spans(format_spans: &[FormatSpan], line_start: usize, line_len: usize) -> (r: Vec<FormatSpan>)
    requires
        line_start + line_len <= usize::MAX,
    ensures
        r@ == clip_spans(format_spans@, line_start as int, line_len as int),
{
    let end = line_start + line_len;
    let mut r: Vec<FormatSpan> = Vec::new();
    let mut i: usize = 0;
    while i < format_spans.len()
        invariant
            i <= format_spans@.len(),
            end == line_start + line_len,
            r@ == clip_spans(format_spans@.take(i as int), line_start as int, line_len as int),
        decreases format_spans@.len() - i,
    {
        let s = &format_spans[i];
        proof {
            assert(format_spans@.take(i + 1).drop_last() =~= format_spans@.take(i as int));
        }
        if s.range.start < end && s.range.end > line_start {
            let from = if s.range.start > line_start {
                s.range.start
            } else {
                line_start
            };
            let to = if s.range.end < end {
                s.range.end
            } else {
                end
            };
            r.push(s.with_range(from - line_start, to - line_start));
        }
        i = i + 1;
    }
    proof {
        assert(format_spans@.take(format_spans@.len() as int) =~= format_spans@);
    }
    r
}

/// `sp` clipped to [`start`, `start + len`) and moved to start from 0.
pub open spec fn clip_span(sp: FormatSpan, start: int, len: int) -> FormatSpan {
    let from = if sp.range.start > start {
        sp.range.start as int
    } else {
        start
    };
    let to = if sp.range.end < start + len {
        sp.range.end as int
    } else {
        start + len
    };
    sp.with_bounds(from - start, to - start)
}

/// The spans that meet [`start`, `start + len`), clipped to it and made relative.
pub open spec fn clip_spans(spans: Seq<FormatSpan>, start: int, len: int) -> Seq<FormatSpan>
    decreases spans.len(),
{
    if spans.len() == 0 {
        spans
    } else {
        let rest = clip_spans(spans.drop_last(), start, len);
        if spans.last().meets(start, start + len) {
            rest.push(clip_span(spans.last(), start, len))
        } else {
            rest
        }
    }
}

} // verus!
