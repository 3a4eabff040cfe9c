//! The span collection as a whole: which bytes carry which attribute, the
//! toggle algorithm, and how the collection follows edits of the text.

use vstd::prelude::*;
use crate::format_span::{Attribute, FormatSpan};

verus! {

/// Some span of `spans` asserts attribute `a` at byte `x`.
pub open spec fn covered(spans: Seq<FormatSpan>, a: Attribute, x: int) -> bool {
    exists|i: int| 0 <= i < spans.len() && #[trigger] spans[i].asserts(a) && spans[i].holds(x)
}

/// Every byte of [`start`, `end`) carries attribute `a`, and the range is not empty.
pub open spec fn fully_covered(spans: Seq<FormatSpan>, a: Attribute, start: int, end: int) -> bool {
    start < end && forall|x: int| start <= x < end ==> #[trigger] covered(spans, a, x)
}

/// The spans come in order of their start.
pub open spec fn sorted_by_start(spans: Seq<FormatSpan>) -> bool {
    forall|i: int, j: int|
        0 <= i <= j < spans.len() ==> #[trigger] spans[i].range.start <= #[trigger] spans[j].range.start
}

/// A span of a text of `len` bytes: non-empty, within the text, one attribute.
pub open spec fn span_ok(sp: FormatSpan, len: int) -> bool {
    sp.range.start < sp.range.end <= len && sp.single_attribute()
}

/// The collection's invariant over a text of `len` bytes.
pub open spec fn spans_wf(spans: Seq<FormatSpan>, len: int) -> bool {
    &&& sorted_by_start(spans)
    &&& forall|i: int| 0 <= i < spans.len() ==> span_ok(#[trigger] spans[i], len)
}

/// A toggle of `a` over [`start`, `end`) cuts `sp`: it meets the range and
/// asserts `a` (when the range is fully covered) or sets `a` at all (when not).
pub open spec fn split_candidate(
    sp: FormatSpan,
    a: Attribute,
    start: int,
    end: int,
    fully: bool,
) -> bool {
    sp.meets(start, end) && if fully {
        sp.attr(a) == Some(true)
    } else {
        sp.attr(a) is Some
    }
}

/// What stays of `sp` after the toggle: itself, or its parts before and after the range.
pub open spec fn split_parts(
    sp: FormatSpan,
    a: Attribute,
    start: int,
    end: int,
    fully: bool,
) -> Seq<FormatSpan> {
    if split_candidate(sp, a, start, end, fully) {
        (if sp.range.start < start {
            seq![sp.with_bounds(sp.range.start as int, start)]
        } else {
            Seq::empty()
        }) + (if sp.range.end > end {
            seq![sp.with_bounds(end, sp.range.end as int)]
        } else {
            Seq::empty()
        })
    } else {
        seq![sp]
    }
}

/// The parts that stay of each span, in order.
pub open spec fn split_all(
    spans: Seq<FormatSpan>,
    a: Attribute,
    start: int,
    end: int,
    fully: bool,
) -> Seq<FormatSpan>
    decreases spans.len(),
{
    if spans.len() == 0 {
        Seq::empty()
    } else {
        split_all(spans.drop_last(), a, start, end, fully) + split_parts(
            spans.last(),
            a,
            start,
            end,
            fully,
        )
    }
}

/// Where a span starting at `key` goes in `t`: after every span that starts
/// at or before `key`, scanning from the back.
pub open spec fn insert_pos(t: Seq<FormatSpan>, key: int) -> nat
    decreases t.len(),
{
    if t.len() == 0 || t.last().range.start <= key {
        t.len()
    } else {
        insert_pos(t.drop_last(), key)
    }
}

/// `t` with `x` put in at its place by start.
pub open spec fn insert_sorted(t: Seq<FormatSpan>, x: FormatSpan) -> Seq<FormatSpan> {
    t.insert(insert_pos(t, x.range.start as int) as int, x)
}

/// `s` sorted by start; spans with equal starts keep their order.
pub open spec fn sort_by_start(s: Seq<FormatSpan>) -> Seq<FormatSpan>
    decreases s.len(),
{
    if s.len() == 0 {
        s
    } else {
        insert_sorted(sort_by_start(s.drop_last()), s.last())
    }
}

/// The collection after toggling `a` over [`start`, `end`): an empty range
/// changes nothing; a fully covered range loses `a`, any other gains it.
pub open spec fn toggled(spans: Seq<FormatSpan>, a: Attribute, start: int, end: int) -> Seq<
    FormatSpan,
> {
    if start >= end {
        spans
    } else {
        let fully = fully_covered(spans, a, start, end);
        let parts = split_all(spans, a, start, end, fully);
        sort_by_start(
            if fully {
                parts
            } else {
                parts.push(FormatSpan::single(start, end, a))
            },
        )
    }
}

/// The collection after `len` bytes are put in at `offset`.
pub open spec fn spans_after_insert(spans: Seq<FormatSpan>, offset: int, len: int) -> Seq<
    FormatSpan,
> {
    Seq::new(spans.len(), |i: int| spans[i].after_insert(offset, len))
}

/// The spans of `s` whose range is not empty, in order.
pub open spec fn nonempty_only(s: Seq<FormatSpan>) -> Seq<FormatSpan>
    decreases s.len(),
{
    if s.len() == 0 {
        s
    } else if s.last().range.start < s.last().range.end {
        nonempty_only(s.drop_last()).push(s.last())
    } else {
        nonempty_only(s.drop_last())
    }
}

/// Every span after the removal, empty ones included.
pub open spec fn spans_shifted_by_remove(spans: Seq<FormatSpan>, offset: int, len: int) -> Seq<
    FormatSpan,
> {
    Seq::new(spans.len(), |i: int| spans[i].after_remove(offset, len))
}

/// The collection after the `len` bytes from `offset` on are taken out.
pub open spec fn spans_after_remove(spans: Seq<FormatSpan>, offset: int, len: int) -> Seq<
    FormatSpan,
> {
    nonempty_only(spans_shifted_by_remove(spans, offset, len))
}

/// Where `insert_pos` puts a key: every span before it starts at or before the
/// key (for a sorted `t`), every span from it on starts after the key.
pub proof fn lemma_insert_pos(t: Seq<FormatSpan>, key: int)
    ensures
        insert_pos(t, key) <= t.len(),
        forall|i: int| insert_pos(t, key) <= i < t.len() ==> key < #[trigger] t[i].range.start,
        sorted_by_start(t) ==> forall|i: int|
            0 <= i < insert_pos(t, key) ==> #[trigger] t[i].range.start <= key,
    decreases t.len(),
{
    if t.len() > 0 && t.last().range.start > key {
        let u = t.drop_last();
        lemma_insert_pos(u, key);
        let p = insert_pos(t, key) as int;
        assert forall|i: int| p <= i < t.len() implies key < #[trigger] t[i].range.start by {
            if i < u.len() {
                assert(u[i] == t[i]);
            }
        }
        if sorted_by_start(t) {
            assert(sorted_by_start(u));
            assert forall|i: int| 0 <= i < p implies #[trigger] t[i].range.start <= key by {
                assert(u[i] == t[i]);
            }
        }
    } else if t.len() > 0 && sorted_by_start(t) {
        assert forall|i: int| 0 <= i < t.len() implies #[trigger] t[i].range.start <= key by {
            assert(t[i].range.start <= t[t.len() - 1].range.start);
        }
    }
}

/// Putting a span in at its place keeps the order and adds just that span.
pub proof fn lemma_insert_sorted(t: Seq<FormatSpan>, x: FormatSpan)
    requires
        sorted_by_start(t),
    ensures
        sorted_by_start(insert_sorted(t, x)),
        insert_sorted(t, x).len() == t.len() + 1,
        forall|y: FormatSpan| insert_sorted(t, x).contains(y) <==> (y == x || t.contains(y)),
{
    let key = x.range.start as int;
    let p = insert_pos(t, key) as int;
    lemma_insert_pos(t, key);
    let r = insert_sorted(t, x);
    t.insert_ensures(p, x);
    assert forall|i: int, j: int|
        0 <= i <= j < r.len() implies #[trigger] r[i].range.start <= #[trigger] r[j].range.start by {
        if j < p {
        } else if j == p {
            if i < p {
            }
        } else if i < p {
            assert(r[j] == t[j - 1]);
        } else if i == p {
            assert(r[j] == t[j - 1]);
        } else {
            assert(r[i] == t[i - 1]);
            assert(r[j] == t[j - 1]);
        }
    }
    assert forall|y: FormatSpan| r.contains(y) <==> (y == x || t.contains(y)) by {
        if r.contains(y) {
            let k = choose|k: int| 0 <= k < r.len() && r[k] == y;
            if k < p {
                assert(t[k] == y);
            } else if k > p {
                assert(t[k - 1] == y);
            }
        }
        if t.contains(y) {
            let k = choose|k: int| 0 <= k < t.len() && t[k] == y;
            if k < p {
                assert(r[k] == y);
            } else {
                assert(r[k + 1] == y);
            }
        }
        if y == x {
            assert(r[p] == y);
        }
    }
}

/// Sorting gives a sorted sequence with the same spans.
pub proof fn lemma_sort_by_start(s: Seq<FormatSpan>)
    ensures
        sorted_by_start(sort_by_start(s)),
        sort_by_start(s).len() == s.len(),
        forall|y: FormatSpan| sort_by_start(s).contains(y) <==> s.contains(y),
    decreases s.len(),
{
    if s.len() > 0 {
        let t = s.drop_last();
        lemma_sort_by_start(t);
        lemma_insert_sorted(sort_by_start(t), s.last());
        assert forall|y: FormatSpan| sort_by_start(s).contains(y) <==> s.contains(y) by {
            if t.contains(y) {
                let k = choose|k: int| 0 <= k < t.len() && t[k] == y;
                assert(s[k] == y);
            }
            if s.contains(y) {
                let k = choose|k: int| 0 <= k < s.len() && s[k] == y;
                if k < s.len() - 1 {
                    assert(t[k] == y);
                }
            }
        }
    }
}

/// Coverage of a concatenation: either side covers.
pub proof fn lemma_covered_concat(p: Seq<FormatSpan>, q: Seq<FormatSpan>, c: Attribute, x: int)
    ensures
        covered(p + q, c, x) <==> covered(p, c, x) || covered(q, c, x),
{
    let r = p + q;
    if covered(r, c, x) {
        let i = choose|i: int| 0 <= i < r.len() && #[trigger] r[i].asserts(c) && r[i].holds(x);
        if i < p.len() {
            assert(p[i] == r[i]);
        } else {
            assert(q[i - p.len()] == r[i]);
        }
    }
    if covered(p, c, x) {
        let i = choose|i: int| 0 <= i < p.len() && #[trigger] p[i].asserts(c) && p[i].holds(x);
        assert(r[i] == p[i]);
    }
    if covered(q, c, x) {
        let i = choose|i: int| 0 <= i < q.len() && #[trigger] q[i].asserts(c) && q[i].holds(x);
        assert(r[i + p.len()] == q[i]);
    }
}

/// Coverage by a sequence of one span, and by the empty sequence.
pub proof fn lemma_covered_small(sp: FormatSpan, c: Attribute, x: int)
    ensures
        covered(seq![sp], c, x) <==> sp.asserts(c) && sp.holds(x),
        !covered(Seq::<FormatSpan>::empty(), c, x),
{
    if sp.asserts(c) && sp.holds(x) {
        assert(seq![sp][0] == sp);
    }
}

/// Two sequences with the same spans cover the same bytes.
pub proof fn lemma_covered_same_spans(s: Seq<FormatSpan>, t: Seq<FormatSpan>, c: Attribute, x: int)
    requires
        forall|y: FormatSpan| s.contains(y) <==> t.contains(y),
    ensures
        covered(s, c, x) <==> covered(t, c, x),
{
    if covered(s, c, x) {
        let i = choose|i: int| 0 <= i < s.len() && #[trigger] s[i].asserts(c) && s[i].holds(x);
        assert(s.contains(s[i]));
        let k = choose|k: int| 0 <= k < t.len() && t[k] == s[i];
        assert(t[k].asserts(c));
    }
    if covered(t, c, x) {
        let i = choose|i: int| 0 <= i < t.len() && #[trigger] t[i].asserts(c) && t[i].holds(x);
        assert(t.contains(t[i]));
        let k = choose|k: int| 0 <= k < s.len() && s[k] == t[i];
        assert(s[k].asserts(c));
    }
}

/// What stays of one span: well formed, and covering what the span covered
/// except attribute `a` inside the toggled range.
pub proof fn lemma_split_parts(
    sp: FormatSpan,
    a: Attribute,
    start: int,
    end: int,
    fully: bool,
    len: int,
)
    requires
        span_ok(sp, len),
        0 <= start < end <= len,
    ensures
        forall|i: int|
            0 <= i < split_parts(sp, a, start, end, fully).len() ==> span_ok(
                #[trigger] split_parts(sp, a, start, end, fully)[i],
                len,
            ),
        forall|c: Attribute, x: int|
            #[trigger] covered(split_parts(sp, a, start, end, fully), c, x) <==> sp.asserts(c)
                && sp.holds(x) && !(c == a && start <= x < end),
{
    let parts = split_parts(sp, a, start, end, fully);
    if split_candidate(sp, a, start, end, fully) {
        let left: Seq<FormatSpan> = if sp.range.start < start {
            seq![sp.with_bounds(sp.range.start as int, start)]
        } else {
            Seq::empty()
        };
        let right: Seq<FormatSpan> = if sp.range.end > end {
            seq![sp.with_bounds(end, sp.range.end as int)]
        } else {
            Seq::empty()
        };
        assert(parts == left + right);
        assert forall|c: Attribute, x: int| #[trigger]
            covered(parts, c, x) <==> sp.asserts(c) && sp.holds(x) && !(c == a && start <= x
                < end) by {
            lemma_covered_concat(left, right, c, x);
            lemma_covered_small(sp.with_bounds(sp.range.start as int, start), c, x);
            lemma_covered_small(sp.with_bounds(end, sp.range.end as int), c, x);
        }
    } else {
        assert forall|c: Attribute, x: int| #[trigger]
            covered(parts, c, x) <==> sp.asserts(c) && sp.holds(x) && !(c == a && start <= x
                < end) by {
            lemma_covered_small(sp, c, x);
        }
    }
}

/// What stays of all spans: well formed, and covering what the spans covered
/// except attribute `a` inside the toggled range.
pub proof fn lemma_split_all(
    spans: Seq<FormatSpan>,
    a: Attribute,
    start: int,
    end: int,
    fully: bool,
    len: int,
)
    requires
        forall|i: int| 0 <= i < spans.len() ==> span_ok(#[trigger] spans[i], len),
        0 <= start < end <= len,
    ensures
        forall|i: int|
            0 <= i < split_all(spans, a, start, end, fully).len() ==> span_ok(
                #[trigger] split_all(spans, a, start, end, fully)[i],
                len,
            ),
        forall|c: Attribute, x: int|
            #[trigger] covered(split_all(spans, a, start, end, fully), c, x) <==> covered(
                spans,
                c,
                x,
            ) && !(c == a && start <= x < end),
    decreases spans.len(),
{
    if spans.len() == 0 {
        assert forall|c: Attribute, x: int|
            #[trigger] covered(split_all(spans, a, start, end, fully), c, x) <==> covered(
                spans,
                c,
                x,
            ) && !(c == a && start <= x < end) by {
            lemma_covered_small(FormatSpan::single(0, 1, a), c, x);
            assert(spans == Seq::<FormatSpan>::empty());
        }
    } else {
        let init = spans.drop_last();
        let last = spans.last();
        lemma_split_all(init, a, start, end, fully, len);
        lemma_split_parts(last, a, start, end, fully, len);
        let p = split_all(init, a, start, end, fully);
        let q = split_parts(last, a, start, end, fully);
        assert(split_all(spans, a, start, end, fully) == p + q);
        assert forall|i: int| 0 <= i < (p + q).len() implies span_ok(#[trigger] (p + q)[i], len) by {
            if i >= p.len() {
                assert((p + q)[i] == q[i - p.len()]);
            }
        }
        assert forall|c: Attribute, x: int|
            #[trigger] covered(split_all(spans, a, start, end, fully), c, x) <==> covered(
                spans,
                c,
                x,
            ) && !(c == a && start <= x < end) by {
            lemma_covered_concat(p, q, c, x);
            assert(spans == init.push(last));
            lemma_covered_concat(init, seq![last], c, x);
            assert(init + seq![last] == spans);
            lemma_covered_small(last, c, x);
        }
    }
}

/// Whether attribute `c` holds at byte `x` after toggling `a` over
/// [`start`, `end`) in `spans`.
pub open spec fn covered_after_toggle(
    spans: Seq<FormatSpan>,
    a: Attribute,
    start: int,
    end: int,
    c: Attribute,
    x: int,
) -> bool {
    if c == a && start < end {
        if fully_covered(spans, a, start, end) {
            covered(spans, c, x) && !(start <= x < end)
        } else {
            covered(spans, c, x) || start <= x < end
        }
    } else {
        covered(spans, c, x)
    }
}

/// A toggle keeps the collection well formed; attribute `a` goes away over
/// the range when the range was fully covered and holds over all of it
/// otherwise; outside the range, and for every other attribute, nothing changes.
pub proof fn lemma_toggled(spans: Seq<FormatSpan>, a: Attribute, start: int, end: int, len: int)
    requires
        spans_wf(spans, len),
        0 <= start,
        end <= len <= usize::MAX,
    ensures
        spans_wf(toggled(spans, a, start, end), len),
        forall|c: Attribute, x: int|
            #[trigger] covered(toggled(spans, a, start, end), c, x) == covered_after_toggle(
                spans,
                a,
                start,
                end,
                c,
                x,
            ),
{
    if start < end {
        let fully = fully_covered(spans, a, start, end);
        let parts = split_all(spans, a, start, end, fully);
        lemma_split_all(spans, a, start, end, fully, len);
        let all = if fully {
            parts
        } else {
            parts.push(FormatSpan::single(start, end, a))
        };
        assert forall|i: int| 0 <= i < all.len() implies span_ok(#[trigger] all[i], len) by {
            if i < parts.len() {
                assert(all[i] == parts[i]);
            } else {
                match a {
                    Attribute::Bold => {},
                    Attribute::Italic => {},
                    Attribute::Underline => {},
                }
            }
        }
        let r = sort_by_start(all);
        lemma_sort_by_start(all);
        assert forall|i: int| 0 <= i < r.len() implies span_ok(#[trigger] r[i], len) by {
            assert(r.contains(r[i]));
            assert(all.contains(r[i]));
            let k = choose|k: int| 0 <= k < all.len() && all[k] == r[i];
        }
        assert forall|c: Attribute, x: int| #[trigger]
            covered(toggled(spans, a, start, end), c, x) == covered_after_toggle(
                spans,
                a,
                start,
                end,
                c,
                x,
            ) by {
            lemma_covered_same_spans(r, all, c, x);
            if !fully {
                lemma_covered_concat(parts, seq![FormatSpan::single(start, end, a)], c, x);
                assert(parts + seq![FormatSpan::single(start, end, a)] == all);
                lemma_covered_small(FormatSpan::single(start, end, a), c, x);
            }
            if c == a && fully && start <= x < end {
                assert(covered(spans, a, x));
            }
        }
    }
}

/// Toggling an attribute twice over the same range, starting where no span
/// sets it anywhere in the range, leaves no span that sets it there; the
/// bytes outside the range, and the other attributes, are as before.
pub proof fn lemma_toggle_twice(spans: Seq<FormatSpan>, a: Attribute, start: int, end: int, len: int)
    requires
        spans_wf(spans, len),
        0 <= start < end <= len <= usize::MAX,
        forall|i: int| 0 <= i < spans.len() && #[trigger] spans[i].asserts(a) ==> !spans[i].meets(start, end),
    ensures
        ({
            let twice = toggled(toggled(spans, a, start, end), a, start, end);
            &&& spans_wf(twice, len)
            &&& forall|i: int|
                0 <= i < twice.len() && #[trigger] twice[i].asserts(a) ==> !twice[i].meets(start, end)
            &&& forall|c: Attribute, x: int| #[trigger] covered(twice, c, x) == (covered(spans, c, x) && !(c == a && start <= x < end))
        }),
{
    let once = toggled(spans, a, start, end);
    let twice = toggled(once, a, start, end);
    lemma_toggled(spans, a, start, end, len);
    lemma_toggled(once, a, start, end, len);
    assert(!covered(spans, a, start));
    assert(!fully_covered(spans, a, start, end));
    assert(fully_covered(once, a, start, end)) by {
        assert forall|x: int| start <= x < end implies #[trigger] covered(once, a, x) by {
            assert(covered_after_toggle(spans, a, start, end, a, x));
        }
    }
    assert forall|c: Attribute, x: int| #[trigger] covered(twice, c, x) == (covered(spans, c, x) && !(c == a && start <= x < end)) by {
        assert(covered(twice, c, x) == covered_after_toggle(once, a, start, end, c, x));
        assert(covered(once, c, x) == covered_after_toggle(spans, a, start, end, c, x));
        if c == a && !(start <= x < end) {
        }
    }
    assert forall|i: int| 0 <= i < twice.len() && #[trigger] twice[i].asserts(a) implies !twice[i].meets(start, end) by {
        if twice[i].meets(start, end) {
            let sp = twice[i];
            let x = if sp.range.start < start { start } else { sp.range.start as int };
            assert(sp.holds(x));
            assert(covered(twice, a, x));
        }
    }
}

/// Toggling attribute `b` over part of a span that sets another attribute `a`
/// keeps `a` over that part; where `b` was not already set over all of the
/// part, both attributes hold there afterwards.
pub proof fn lemma_toggle_layers(
    spans: Seq<FormatSpan>,
    k: int,
    a: Attribute,
    b: Attribute,
    start: int,
    end: int,
    len: int,
)
    requires
        spans_wf(spans, len),
        0 <= k < spans.len(),
        spans[k].asserts(a),
        a != b,
        spans[k].range.start <= start < end <= spans[k].range.end,
        len <= usize::MAX,
    ensures
        forall|x: int| start <= x < end ==> #[trigger] covered(toggled(spans, b, start, end), a, x),
        !fully_covered(spans, b, start, end) ==> forall|x: int|
            start <= x < end ==> #[trigger] covered(toggled(spans, b, start, end), b, x),
{
    lemma_toggled(spans, b, start, end, len);
    assert forall|x: int| start <= x < end implies #[trigger] covered(toggled(spans, b, start, end), a, x) by {
        assert(spans[k].holds(x));
        assert(covered(spans, a, x));
        assert(covered_after_toggle(spans, b, start, end, a, x));
    }
    if !fully_covered(spans, b, start, end) {
        assert forall|x: int| start <= x < end implies #[trigger] covered(toggled(spans, b, start, end), b, x) by {
            assert(covered_after_toggle(spans, b, start, end, b, x));
        }
    }
}

/// After an insertion of `n` bytes at `offset` the collection is still well
/// formed, over a text `n` bytes longer.
pub proof fn lemma_after_insert_wf(spans: Seq<FormatSpan>, offset: int, n: int, len: int)
    requires
        spans_wf(spans, len),
        0 <= offset <= len,
        0 <= n,
        len + n <= usize::MAX,
    ensures
        spans_wf(spans_after_insert(spans, offset, n), len + n),
{
    let r = spans_after_insert(spans, offset, n);
    assert forall|i: int, j: int| 0 <= i <= j < r.len() implies #[trigger] r[i].range.start
        <= #[trigger] r[j].range.start by {
        assert(spans[i].range.start <= spans[j].range.start);
    }
    assert forall|i: int| 0 <= i < r.len() implies span_ok(#[trigger] r[i], len + n) by {
        assert(span_ok(spans[i], len));
    }
}

/// Inserting `n` bytes at `offset` moves every span that starts at or after
/// `offset` by `n` bytes, and leaves every span that ends at or before
/// `offset` as it was.
pub proof fn lemma_insert_shifts(spans: Seq<FormatSpan>, offset: int, n: int, len: int)
    requires
        spans_wf(spans, len),
        0 <= offset <= len,
        0 <= n,
        len + n <= usize::MAX,
    ensures
        spans_after_insert(spans, offset, n).len() == spans.len(),
        forall|i: int|
            0 <= i < spans.len() && offset <= spans[i].range.start ==> #[trigger] spans_after_insert(
                spans,
                offset,
                n,
            )[i] == spans[i].with_bounds(spans[i].range.start + n, spans[i].range.end + n),
        forall|i: int|
            0 <= i < spans.len() && spans[i].range.end <= offset ==> #[trigger] spans_after_insert(
                spans,
                offset,
                n,
            )[i] == spans[i],
{
    assert forall|i: int|
        0 <= i < spans.len() && spans[i].range.end <= offset implies #[trigger] spans_after_insert(
            spans,
            offset,
            n,
        )[i] == spans[i] by {
        assert(span_ok(spans[i], len));
        assert(spans[i].with_bounds(spans[i].range.start as int, spans[i].range.end as int)
            == spans[i]);
    }
}

/// The spans that `nonempty_only` keeps are non-empty spans of `s`, in order.
pub proof fn lemma_nonempty_only(s: Seq<FormatSpan>)
    ensures
        forall|y: FormatSpan| #[trigger] nonempty_only(s).contains(y) ==> s.contains(y) && y.range.start < y.range.end,
        sorted_by_start(s) ==> sorted_by_start(nonempty_only(s)),
    decreases s.len(),
{
    if s.len() > 0 {
        let t = s.drop_last();
        let r = nonempty_only(t);
        lemma_nonempty_only(t);
        assert forall|y: FormatSpan| #[trigger] nonempty_only(s).contains(y) implies s.contains(y) && y.range.start < y.range.end by {
            if r.contains(y) {
                let k = choose|k: int| 0 <= k < t.len() && t[k] == y;
                assert(s[k] == y);
            } else {
                assert(y == s.last());
            }
        }
        if sorted_by_start(s) && s.last().range.start < s.last().range.end {
            let q = r.push(s.last());
            assert forall|i: int, j: int| 0 <= i <= j < q.len() implies #[trigger] q[i].range.start
                <= #[trigger] q[j].range.start by {
                if j == q.len() - 1 && i < j {
                    assert(r.contains(q[i]));
                    assert(t.contains(q[i]));
                    let k = choose|k: int| 0 <= k < t.len() && t[k] == q[i];
                    assert(s[k] == q[i]);
                } else if j < q.len() - 1 {
                    assert(q[i] == r[i]);
                    assert(q[j] == r[j]);
                }
            }
            assert(sorted_by_start(t));
        } else if sorted_by_start(s) {
            assert(sorted_by_start(t));
        }
    }
}

/// Where a removal of the `n` bytes from `offset` moves the start of a span:
/// a function of the start alone, and one that never goes down.
pub open spec fn start_after_remove(start: int, offset: int, n: int) -> int {
    if start >= offset + n {
        start - n
    } else if start >= offset {
        offset
    } else {
        start
    }
}

/// After a removal of the `n` bytes from `offset` on the collection is still
/// well formed, over a text `n` bytes shorter.
pub proof fn lemma_after_remove_wf(spans: Seq<FormatSpan>, offset: int, n: int, len: int)
    requires
        spans_wf(spans, len),
        0 <= offset,
        0 <= n,
        offset + n <= len <= usize::MAX,
    ensures
        spans_wf(spans_after_remove(spans, offset, n), len - n),
{
    let m = spans_shifted_by_remove(spans, offset, n);
    assert forall|i: int| 0 <= i < m.len() implies #[trigger] m[i].range.start == start_after_remove(
        spans[i].range.start as int,
        offset,
        n,
    ) && m[i].range.start <= m[i].range.end <= len - n && m[i].single_attribute() by {
        assert(span_ok(spans[i], len));
    }
    assert forall|i: int, j: int| 0 <= i <= j < m.len() implies #[trigger] m[i].range.start
        <= #[trigger] m[j].range.start by {
        assert(spans[i].range.start <= spans[j].range.start);
        assert(m[i].range.start == start_after_remove(spans[i].range.start as int, offset, n));
        assert(m[j].range.start == start_after_remove(spans[j].range.start as int, offset, n));
    }
    lemma_nonempty_only(m);
    let r = nonempty_only(m);
    assert forall|i: int| 0 <= i < r.len() implies span_ok(#[trigger] r[i], len - n) by {
        assert(r.contains(r[i]));
        let k = choose|k: int| 0 <= k < m.len() && m[k] == r[i];
        assert(m[k].range.start <= m[k].range.end <= len - n && m[k].single_attribute());
    }
}

/// `nonempty_only` skips an empty span: the result is as if it were not there.
pub proof fn lemma_nonempty_only_skips(s: Seq<FormatSpan>, k: int)
    requires
        0 <= k < s.len(),
        s[k].range.start >= s[k].range.end,
    ensures
        nonempty_only(s) == nonempty_only(s.remove(k)),
    decreases s.len(),
{
    if k == s.len() - 1 {
        assert(s.remove(k) == s.drop_last());
    } else {
        let t = s.drop_last();
        lemma_nonempty_only_skips(t, k);
        assert(s.remove(k).drop_last() == t.remove(k));
        assert(s.remove(k).last() == s.last());
    }
}

/// Removing bytes that hold the whole of span `k` takes that span out of the
/// collection: the result is the same as for the collection without it.
pub proof fn lemma_remove_drops_span(spans: Seq<FormatSpan>, k: int, offset: int, n: int, len: int)
    requires
        spans_wf(spans, len),
        0 <= k < spans.len(),
        0 <= offset <= spans[k].range.start,
        spans[k].range.end <= offset + n,
    ensures
        spans_after_remove(spans, offset, n) == spans_after_remove(spans.remove(k), offset, n),
{
    let m = spans_shifted_by_remove(spans, offset, n);
    assert(span_ok(spans[k], len));
    lemma_nonempty_only_skips(m, k);
    assert(m.remove(k) == spans_shifted_by_remove(spans.remove(k), offset, n));
}

/// Number of spans whose range lies within [`start`, `end`).
pub open spec fn count_within(spans: Seq<FormatSpan>, start: int, end: int) -> nat
    decreases spans.len(),
{
    if spans.len() == 0 {
        0
    } else {
        count_within(spans.drop_last(), start, end) + if start <= spans.last().range.start
            && spans.last().range.end <= end {
            1nat
        } else {
            0nat
        }
    }
}

/// Removing the `n` bytes from `offset` on takes out exactly the spans that lie
/// within them (a span's own range among them), and leaves no empty span.
pub proof fn lemma_remove_count(spans: Seq<FormatSpan>, offset: int, n: int, len: int)
    requires
        spans_wf(spans, len),
        0 <= offset,
        0 <= n,
    ensures
        spans_after_remove(spans, offset, n).len() + count_within(spans, offset, offset + n)
            == spans.len(),
        forall|i: int|
            0 <= i < spans_after_remove(spans, offset, n).len() ==> #[trigger] spans_after_remove(
                spans,
                offset,
                n,
            )[i].range.start < spans_after_remove(spans, offset, n)[i].range.end,
    decreases spans.len(),
{
    let m = spans_shifted_by_remove(spans, offset, n);
    let r = nonempty_only(m);
    if spans.len() > 0 {
        let init = spans.drop_last();
        assert(spans_wf(init, len)) by {
            assert forall|i: int| 0 <= i < init.len() implies span_ok(#[trigger] init[i], len) by {
                assert(span_ok(spans[i], len));
            }
        }
        lemma_remove_count(init, offset, n, len);
        assert(m.drop_last() =~= spans_shifted_by_remove(init, offset, n));
        assert(span_ok(spans.last(), len));
    }
    lemma_nonempty_only(m);
    assert forall|i: int| 0 <= i < r.len() implies #[trigger] r[i].range.start < r[i].range.end by {
        assert(r.contains(r[i]));
    }
}

} // verus!
