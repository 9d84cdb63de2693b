//! The mathematical model: what a common run is, which positions an item
//! occupies in sequence `b`, which items the popularity filter drops, what
//! a well-formed match list looks like, and how a match list determines
//! the edit spans.

use vstd::prelude::*;
use crate::structs::{Match, Span, Tag};

verus! {

/// The `k` items of `a` starting at `i` equal, pairwise, the `k` items of
/// `b` starting at `j`.
pub open spec fn run_matches(a: Seq<u64>, b: Seq<u64>, i: int, j: int, k: int) -> bool {
    forall|d: int| 0 <= d < k ==> a[i + d] == #[trigger] b[j + d]
}

/// A common run of length `k` at `(i, j)`, lying entirely within the
/// half-open ranges `[a_lo, a_hi)` of `a` and `[b_lo, b_hi)` of `b`.
pub open spec fn valid_run_in(
    a: Seq<u64>,
    b: Seq<u64>,
    a_lo: int,
    a_hi: int,
    b_lo: int,
    b_hi: int,
    i: int,
    j: int,
    k: int,
) -> bool {
    &&& 0 <= k
    &&& a_lo <= i
    &&& i + k <= a_hi
    &&& b_lo <= j
    &&& j + k <= b_hi
    &&& run_matches(a, b, i, j, k)
}

/// A `Match` value read as a common run of the two full sequences.
pub open spec fn match_valid(a: Seq<u64>, b: Seq<u64>, m: Match) -> bool {
    &&& m.a_start + m.length <= a.len()
    &&& m.b_start + m.length <= b.len()
    &&& run_matches(a, b, m.a_start as int, m.b_start as int, m.length as int)
}

/// The ascending list of all positions at which `v` occurs in `bs`.
pub open spec fn positions_of(bs: Seq<u64>, v: u64) -> Seq<usize>
    decreases bs.len(),
{
    if bs.len() == 0 {
        Seq::empty()
    } else if bs.last() == v {
        positions_of(bs.drop_last(), v) + seq![(bs.len() - 1) as usize]
    } else {
        positions_of(bs.drop_last(), v)
    }
}

/// An item may occur at most this often in `bs` before the popularity
/// filter drops it from the index.
pub open spec fn popularity_limit(blen: nat) -> nat {
    blen / 100 + 1
}

/// `v` is dropped from the index of `bs`: the filter is active (at least
/// 200 items) and `v` occurs more often than the limit allows.
pub open spec fn is_junk(bs: Seq<u64>, v: u64) -> bool {
    bs.len() >= 200 && positions_of(bs, v).len() > popularity_limit(bs.len())
}

/// No item of `bs` is dropped by the popularity filter, so the index is
/// complete and every common run is visible to the matcher.
pub open spec fn no_junk(bs: Seq<u64>) -> bool {
    forall|j: int| 0 <= j < bs.len() ==> !is_junk(bs, #[trigger] bs[j])
}

/// The length of the longest common run that ends exactly at `a[i]` and
/// `b[j]` without reaching below `a_lo` in `a` or below `b_lo` in `b`.
pub open spec fn run_end_len(a: Seq<u64>, b: Seq<u64>, a_lo: int, b_lo: int, i: int, j: int) -> nat
    decreases (if i < a_lo { 0int } else { i - a_lo + 1 }),
{
    if i < a_lo || j < b_lo || i >= a.len() || j >= b.len() || a[i] != b[j] {
        0
    } else {
        1 + run_end_len(a, b, a_lo, b_lo, i - 1, j - 1)
    }
}

/// Position `(pi, pj)` comes no later than `(qi, qj)` in the scan order of
/// the matching table: by row, then by column.
pub open spec fn lex_at_most(pi: int, pj: int, qi: int, qj: int) -> bool {
    pi < qi || (pi == qi && pj <= qj)
}

/// How far along row `t` of the position list the scan of column `row`
/// has come: every column before the bound has been visited.
pub open spec fn scan_bound(gps: Seq<usize>, t: int, b_hi: int) -> int {
    if t >= gps.len() {
        b_hi
    } else if gps[t] < b_hi {
        gps[t] as int
    } else {
        b_hi
    }
}

/// The table positions the matching scan has already visited: every
/// column of the rows before `row`, and the columns of `row` itself up to
/// `bound`.
pub open spec fn dp_processed(
    a_lo: int,
    b_lo: int,
    b_hi: int,
    row: int,
    bound: int,
    p: int,
    q: int,
) -> bool {
    (a_lo <= p < row && b_lo <= q < b_hi) || (p == row && a_lo <= p && b_lo <= q < bound)
}

/// The rectangle of index pairs a `Match` occupies:
/// `[a_start, a_start + length)` by `[b_start, b_start + length)`.
pub open spec fn region_of_match(m: Match) -> (int, int, int, int) {
    (m.a_start as int, m.a_start + m.length, m.b_start as int, m.b_start + m.length)
}

/// The rectangle of index pairs a work-list range quadruple covers.
pub open spec fn region_of_quad(r: (usize, usize, usize, usize)) -> (int, int, int, int) {
    (r.0 as int, r.1 as int, r.2 as int, r.3 as int)
}

/// Two rectangles are apart: one lies entirely before the other, on both
/// axes at once.
pub open spec fn regions_apart(r1: (int, int, int, int), r2: (int, int, int, int)) -> bool {
    (r1.1 <= r2.0 && r1.3 <= r2.2) || (r2.1 <= r1.0 && r2.3 <= r1.2)
}

/// A work-list range quadruple stays within the two sequences.
pub open spec fn quad_wf(a: Seq<u64>, b: Seq<u64>, r: (usize, usize, usize, usize)) -> bool {
    r.0 <= r.1 && r.1 <= a.len() && r.2 <= r.3 && r.3 <= b.len()
}

/// How many `a`-indexes a range quadruple spans; the work always shrinks
/// by this measure.
pub open spec fn quad_extent(r: (usize, usize, usize, usize)) -> nat {
    if r.0 <= r.1 {
        (r.1 - r.0) as nat
    } else {
        0
    }
}

/// The total `a`-extent of all ranges still on the work list.
pub open spec fn sum_extents(qs: Seq<(usize, usize, usize, usize)>) -> nat
    decreases qs.len(),
{
    if qs.len() == 0 {
        0
    } else {
        sum_extents(qs.drop_last()) + quad_extent(qs.last())
    }
}

/// Appending a range adds its extent to the total.
pub proof fn lemma_sum_extents_push(qs: Seq<(usize, usize, usize, usize)>, r: (usize, usize, usize, usize))
    ensures
        sum_extents(qs.push(r)) == sum_extents(qs) + quad_extent(r),
{
    assert(qs.push(r).drop_last() =~= qs);
}

/// The sorting order on matches: by `a_start`, then `b_start`, then
/// `length`.
pub open spec fn match_le(m1: Match, m2: Match) -> bool {
    ||| m1.a_start < m2.a_start
    ||| (m1.a_start == m2.a_start && m1.b_start < m2.b_start)
    ||| (m1.a_start == m2.a_start && m1.b_start == m2.b_start && m1.length <= m2.length)
}

/// Every pair of the listed matches, in order, respects the sorting
/// order.
pub open spec fn sorted_matches(ms: Seq<Match>) -> bool {
    forall|t1: int, t2: int| #![trigger ms[t1], ms[t2]]
        0 <= t1 < t2 < ms.len() ==> match_le(ms[t1], ms[t2])
}

/// Every pair of the listed matches occupies rectangles that are apart.
pub open spec fn pairwise_apart(ms: Seq<Match>) -> bool {
    forall|t1: int, t2: int| #![trigger ms[t1], ms[t2]]
        0 <= t1 < t2 < ms.len() ==> regions_apart(region_of_match(ms[t1]), region_of_match(ms[t2]))
}

/// Two common runs that meet end-to-start form one common run.
pub proof fn lemma_run_concat(a: Seq<u64>, b: Seq<u64>, i: int, j: int, k1: int, k2: int)
    requires
        k1 >= 0,
        k2 >= 0,
        run_matches(a, b, i, j, k1),
        run_matches(a, b, i + k1, j + k1, k2),
    ensures
        run_matches(a, b, i, j, k1 + k2),
{
    assert forall|d: int| 0 <= d < k1 + k2 implies a[i + d] == #[trigger] b[j + d] by {
        if d >= k1 {
            assert(a[(i + k1) + (d - k1)] == b[(j + k1) + (d - k1)]);
        }
    }
}

/// Consecutive matches never overlap: each ends, on both axes, no later
/// than the next one starts.
pub open spec fn ordered_matches(ms: Seq<Match>) -> bool {
    forall|t1: int, t2: int| #![trigger ms[t1], ms[t2]]
        0 <= t1 && t2 == t1 + 1 && t2 < ms.len() ==> {
            &&& ms[t1].a_start + ms[t1].length <= ms[t2].a_start
            &&& ms[t1].b_start + ms[t1].length <= ms[t2].b_start
        }
}

/// `m2` begins exactly where `m1` ends, on both axes; such matches are
/// merged into one.
pub open spec fn adjacent_matches(m1: Match, m2: Match) -> bool {
    m1.a_start + m1.length == m2.a_start && m1.b_start + m1.length == m2.b_start
}

/// A well-formed match list for sequences `a` and `b`: every entry is a
/// common run, all but the last have positive length, the entries are
/// ordered and non-overlapping, and the list ends with the zero-length
/// sentinel at `(a.len(), b.len())`.
pub open spec fn wf_matches(a: Seq<u64>, b: Seq<u64>, ms: Seq<Match>) -> bool {
    &&& ms.len() >= 1
    &&& ms.last().a_start == a.len()
    &&& ms.last().b_start == b.len()
    &&& ms.last().length == 0
    &&& forall|t: int| 0 <= t < ms.len() - 1 ==> (#[trigger] ms[t]).length > 0
    &&& forall|t: int| 0 <= t < ms.len() ==> match_valid(a, b, #[trigger] ms[t])
    &&& ordered_matches(ms)
}

/// No two consecutive real matches (the sentinel aside) touch: they were
/// merged, so every gap between emitted matches is a genuine difference.
pub open spec fn merged_matches(ms: Seq<Match>) -> bool {
    forall|t1: int, t2: int| #![trigger ms[t1], ms[t2]]
        0 <= t1 && t2 == t1 + 1 && t2 < ms.len() - 1 ==> !adjacent_matches(ms[t1], ms[t2])
}

/// The position list of `v` in `bs` is sound (each listed position holds
/// `v`), strictly ascending, and complete (every position holding `v` is
/// listed).
pub proof fn lemma_positions_of_props(bs: Seq<u64>, v: u64)
    requires
        bs.len() <= usize::MAX,
    ensures
        forall|t: int| 0 <= t < positions_of(bs, v).len() ==> {
            &&& (#[trigger] positions_of(bs, v)[t]) < bs.len()
            &&& bs[positions_of(bs, v)[t] as int] == v
        },
        forall|t1: int, t2: int|
            0 <= t1 < t2 < positions_of(bs, v).len()
                ==> #[trigger] positions_of(bs, v)[t1] < #[trigger] positions_of(bs, v)[t2],
        forall|j: int| 0 <= j < bs.len() && bs[j] == v
            ==> exists|t: int| 0 <= t < positions_of(bs, v).len()
                && #[trigger] positions_of(bs, v)[t] == j,
    decreases bs.len(),
{
    if bs.len() > 0 {
        lemma_positions_of_props(bs.drop_last(), v);
        let ps = positions_of(bs, v);
        let pre = positions_of(bs.drop_last(), v);
        assert(forall|t: int| 0 <= t < pre.len() ==> ps[t] == pre[t]);
        assert forall|j: int| 0 <= j < bs.len() && bs[j] == v
            implies exists|t: int| 0 <= t < ps.len() && #[trigger] ps[t] == j by {
            if j < bs.len() - 1 {
                assert(bs.drop_last()[j] == v);
                let t = choose|t: int| 0 <= t < pre.len() && #[trigger] pre[t] == j;
                assert(ps[t] == j);
            } else {
                assert(bs.last() == v);
                assert(ps.len() == pre.len() + 1);
                assert(ps[pre.len() as int] == seq![(bs.len() - 1) as usize][0]);
                assert(ps[pre.len() as int] == j);
            }
        }
    }
}

/// Appending one item to `bs` appends at most its own position to any
/// position list.
pub proof fn lemma_positions_of_push(bs: Seq<u64>, x: u64, v: u64)
    ensures
        positions_of(bs.push(x), v) == if x == v {
            positions_of(bs, v).push(bs.len() as usize)
        } else {
            positions_of(bs, v)
        },
{
    assert(bs.push(x).drop_last() =~= bs);
    if x == v {
        assert(positions_of(bs, v) + seq![bs.len() as usize]
            =~= positions_of(bs, v).push(bs.len() as usize));
    }
}

/// What `run_end_len` promises: it is a common run ending at `(i, j)`, it
/// never reaches below the range's start on either axis, and it is zero
/// outside the sequences.
pub proof fn lemma_run_end_len_valid(a: Seq<u64>, b: Seq<u64>, a_lo: int, b_lo: int, i: int, j: int)
    ensures
        0 <= run_end_len(a, b, a_lo, b_lo, i, j),
        run_end_len(a, b, a_lo, b_lo, i, j) > 0 ==> {
            &&& i < a.len() && j < b.len()
            &&& i + 1 - run_end_len(a, b, a_lo, b_lo, i, j) >= a_lo
            &&& j + 1 - run_end_len(a, b, a_lo, b_lo, i, j) >= b_lo
            &&& run_matches(a, b, i + 1 - run_end_len(a, b, a_lo, b_lo, i, j),
                    j + 1 - run_end_len(a, b, a_lo, b_lo, i, j),
                    run_end_len(a, b, a_lo, b_lo, i, j) as int)
        },
    decreases (if i < a_lo { 0int } else { i - a_lo + 1 }),
{
    let k = run_end_len(a, b, a_lo, b_lo, i, j);
    if !(i < a_lo || j < b_lo || i >= a.len() || j >= b.len() || a[i] != b[j]) {
        lemma_run_end_len_valid(a, b, a_lo, b_lo, i - 1, j - 1);
        let k0 = run_end_len(a, b, a_lo, b_lo, i - 1, j - 1);
        assert forall|d: int| 0 <= d < k implies a[i + 1 - k + d] == #[trigger] b[j + 1 - k + d] by {
            if d < k - 1 {
                assert(a[(i - 1) + 1 - k0 + d] == b[(j - 1) + 1 - k0 + d]);
            }
        }
    }
}

/// Every common run that stays within the range is counted by
/// `run_end_len` at its final pair of positions.
pub proof fn lemma_run_le_end(a: Seq<u64>, b: Seq<u64>, a_lo: int, b_lo: int, p: int, q: int, k: int)
    requires
        a_lo <= p,
        b_lo <= q,
        0 < k,
        p + k <= a.len(),
        q + k <= b.len(),
        run_matches(a, b, p, q, k),
    ensures
        run_end_len(a, b, a_lo, b_lo, p + k - 1, q + k - 1) >= k,
    decreases k,
{
    assert(a[p + (k - 1)] == b[q + (k - 1)]);
    lemma_run_end_len_valid(a, b, a_lo, b_lo, p + k - 2, q + k - 2);
    if k > 1 {
        assert(run_matches(a, b, p, q, k - 1)) by {
            assert forall|d: int| 0 <= d < k - 1 implies a[p + d] == #[trigger] b[q + d] by {
                assert(a[p + d] == b[q + d]);
            }
        }
        lemma_run_le_end(a, b, a_lo, b_lo, p, q, k - 1);
    }
}

/// The spans emitted for the gap between the cursor `(i, j)` and the next
/// match `m`: a replacement when both sequences have unmatched items, a
/// deletion or insertion when only one has.
pub open spec fn gap_spans(i: int, j: int, m: Match) -> Seq<Span> {
    if i < m.a_start && j < m.b_start {
        seq![(Span {
            tag: Tag::Replace,
            a_start: i as usize,
            a_end: m.a_start,
            b_start: j as usize,
            b_end: m.b_start,
        })]
    } else if i < m.a_start {
        seq![(Span {
            tag: Tag::Delete,
            a_start: i as usize,
            a_end: m.a_start,
            b_start: j as usize,
            b_end: m.b_start,
        })]
    } else if j < m.b_start {
        seq![(Span {
            tag: Tag::Insert,
            a_start: i as usize,
            a_end: m.a_start,
            b_start: j as usize,
            b_end: m.b_start,
        })]
    } else {
        Seq::empty()
    }
}

/// The equal span emitted for match `m` itself, when it has any length.
pub open spec fn equal_spans(m: Match) -> Seq<Span> {
    if m.length > 0 {
        seq![(Span {
            tag: Tag::Equal,
            a_start: m.a_start,
            a_end: (m.a_start + m.length) as usize,
            b_start: m.b_start,
            b_end: (m.b_start + m.length) as usize,
        })]
    } else {
        Seq::empty()
    }
}

/// The spans derived from the match list `ms`, starting with the cursor at
/// `(i, j)`: for each match, first the gap spans, then the equal span, and
/// the cursor moves to the end of the match.
pub open spec fn spans_of_from(ms: Seq<Match>, i: int, j: int) -> Seq<Span>
    decreases ms.len(),
{
    if ms.len() == 0 {
        Seq::empty()
    } else {
        let m = ms[0];
        gap_spans(i, j, m) + equal_spans(m) + spans_of_from(
            ms.drop_first(),
            m.a_start + m.length,
            m.b_start + m.length,
        )
    }
}

/// The spans derived from the match list `ms`, with the cursor starting at
/// the origin.
pub open spec fn spans_of(ms: Seq<Match>) -> Seq<Span> {
    spans_of_from(ms, 0, 0)
}

/// The spans, in order, cover exactly the rectangle from `(a0, b0)` to
/// `(a1, b1)`: each begins where the one before it ends, on both axes.
pub open spec fn span_chain(ss: Seq<Span>, a0: int, b0: int, a1: int, b1: int) -> bool {
    &&& forall|t: int| 0 <= t < ss.len()
        ==> (#[trigger] ss[t]).a_start <= ss[t].a_end && ss[t].b_start <= ss[t].b_end
    &&& forall|t1: int, t2: int| #![trigger ss[t1], ss[t2]]
        0 <= t1 && t2 == t1 + 1 && t2 < ss.len()
        ==> ss[t1].a_end == ss[t2].a_start && ss[t1].b_end == ss[t2].b_start
    &&& if ss.len() == 0 {
        a0 == a1 && b0 == b1
    } else {
        ss[0].a_start == a0 && ss[0].b_start == b0
            && ss.last().a_end == a1 && ss.last().b_end == b1
    }
}

/// What each tag says of its span: an `Equal` span covers ranges of one
/// nonzero length whose items agree pairwise, an `Insert` span is empty
/// on the `a` side, a `Delete` span empty on the `b` side, and a
/// `Replace` span nonempty on both.
pub open spec fn span_shape_wf(a: Seq<u64>, b: Seq<u64>, s: Span) -> bool {
    match s.tag {
        Tag::Equal => {
            &&& s.a_end - s.a_start == s.b_end - s.b_start
            &&& s.a_start < s.a_end
            &&& s.a_end <= a.len()
            &&& s.b_end <= b.len()
            &&& run_matches(a, b, s.a_start as int, s.b_start as int, s.a_end - s.a_start)
        },
        Tag::Insert => s.a_start == s.a_end && s.b_start < s.b_end,
        Tag::Delete => s.a_start < s.a_end && s.b_start == s.b_end,
        Tag::Replace => s.a_start < s.a_end && s.b_start < s.b_end,
    }
}

/// Every listed span is well shaped for its tag.
pub open spec fn spans_shape_wf(a: Seq<u64>, b: Seq<u64>, ss: Seq<Span>) -> bool {
    forall|t: int| 0 <= t < ss.len() ==> span_shape_wf(a, b, #[trigger] ss[t])
}

/// No two consecutive spans both carry the `Equal` tag.
pub open spec fn no_adjacent_equal(ss: Seq<Span>) -> bool {
    forall|t1: int, t2: int| #![trigger ss[t1], ss[t2]]
        0 <= t1 && t2 == t1 + 1 && t2 < ss.len()
        ==> !(ss[t1].tag == Tag::Equal && ss[t2].tag == Tag::Equal)
}

/// Applying the spans' edits in order: copy `a`'s range for an `Equal`
/// span, skip it for a `Delete`, and take `b`'s range for an `Insert` or
/// `Replace`.
pub open spec fn apply_edits(a: Seq<u64>, b: Seq<u64>, ss: Seq<Span>) -> Seq<u64>
    decreases ss.len(),
{
    if ss.len() == 0 {
        Seq::empty()
    } else {
        let s = ss[0];
        (match s.tag {
            Tag::Equal => a.subrange(s.a_start as int, s.a_end as int),
            Tag::Delete => Seq::<u64>::empty(),
            Tag::Insert => b.subrange(s.b_start as int, s.b_end as int),
            Tag::Replace => b.subrange(s.b_start as int, s.b_end as int),
        }) + apply_edits(a, b, ss.drop_first())
    }
}

/// One unfolding step of `apply_edits`.
pub proof fn lemma_apply_edits_step(a: Seq<u64>, b: Seq<u64>, ss: Seq<Span>)
    requires
        ss.len() > 0,
    ensures
        apply_edits(a, b, ss) == (match ss[0].tag {
            Tag::Equal => a.subrange(ss[0].a_start as int, ss[0].a_end as int),
            Tag::Delete => Seq::<u64>::empty(),
            Tag::Insert => b.subrange(ss[0].b_start as int, ss[0].b_end as int),
            Tag::Replace => b.subrange(ss[0].b_start as int, ss[0].b_end as int),
        }) + apply_edits(a, b, ss.drop_first()),
{
}

/// Applying edits distributes over concatenation of span lists.
pub proof fn lemma_apply_edits_concat(a: Seq<u64>, b: Seq<u64>, s1: Seq<Span>, s2: Seq<Span>)
    ensures
        apply_edits(a, b, s1 + s2) == apply_edits(a, b, s1) + apply_edits(a, b, s2),
    decreases s1.len(),
{
    if s1.len() == 0 {
        assert(s1 + s2 =~= s2);
        assert(apply_edits(a, b, s1) + apply_edits(a, b, s2) =~= apply_edits(a, b, s2));
    } else {
        assert((s1 + s2)[0] == s1[0]);
        assert((s1 + s2).drop_first() =~= s1.drop_first() + s2);
        lemma_apply_edits_concat(a, b, s1.drop_first(), s2);
        assert(apply_edits(a, b, s1 + s2)
            =~= apply_edits(a, b, s1) + apply_edits(a, b, s2));
    }
}

/// Half the heart of the span classifier's correctness, by induction over
/// the match list: from any cursor `(i, j)` at or before the first match,
/// applying the derived spans' edits yields the rest of `b`.
#[verifier::rlimit(100)]
#[verifier::spinoff_prover]
pub proof fn lemma_spans_of_from_apply(a: Seq<u64>, b: Seq<u64>, ms: Seq<Match>, i: int, j: int)
    requires
        ms.len() >= 1,
        ms.last().a_start == a.len(),
        ms.last().b_start == b.len(),
        ms.last().length == 0,
        forall|t: int| 0 <= t < ms.len() - 1 ==> (#[trigger] ms[t]).length > 0,
        forall|t: int| 0 <= t < ms.len() ==> match_valid(a, b, #[trigger] ms[t]),
        ordered_matches(ms),
        0 <= i <= ms[0].a_start,
        0 <= j <= ms[0].b_start,
    ensures
        apply_edits(a, b, spans_of_from(ms, i, j)) == b.subrange(j, b.len() as int),
    decreases ms.len(),
{
    let m = ms[0];
    let gap = gap_spans(i, j, m);
    let eq = equal_spans(m);
    let rest = ms.drop_first();
    let i2 = m.a_start + m.length;
    let j2 = m.b_start + m.length;
    let full = spans_of_from(ms, i, j);
    assert(match_valid(a, b, m));
    lemma_apply_edits_concat(a, b, gap, eq + spans_of_from(rest, i2, j2));
    lemma_apply_edits_concat(a, b, eq, spans_of_from(rest, i2, j2));
    assert(full == gap + eq + spans_of_from(rest, i2, j2));
    assert(full =~= gap + (eq + spans_of_from(rest, i2, j2)));
    assert(apply_edits(a, b, full) == apply_edits(a, b, gap)
        + (apply_edits(a, b, eq) + apply_edits(a, b, spans_of_from(rest, i2, j2))));
    assert(apply_edits(a, b, gap) =~= b.subrange(j, m.b_start as int)) by {
        if gap.len() > 0 {
            lemma_apply_edits_step(a, b, gap);
            assert(gap.drop_first() =~= Seq::<Span>::empty());
            if i < m.a_start && !(j < m.b_start) {
                assert(j == m.b_start);
                assert(apply_edits(a, b, gap) =~= Seq::<u64>::empty());
                assert(b.subrange(j, m.b_start as int) =~= Seq::<u64>::empty());
            } else {
                assert(apply_edits(a, b, gap)
                    =~= b.subrange(j, m.b_start as int) + Seq::<u64>::empty());
            }
        } else {
            assert(i == m.a_start && j == m.b_start);
            assert(b.subrange(j, m.b_start as int) =~= Seq::<u64>::empty());
        }
    }
    if m.length > 0 {
        lemma_apply_edits_step(a, b, eq);
        assert(eq.drop_first() =~= Seq::<Span>::empty());
        assert(apply_edits(a, b, eq)
            =~= a.subrange(m.a_start as int, i2) + Seq::<u64>::empty());
        assert forall|d: int| 0 <= d < m.length
            implies a.subrange(m.a_start as int, i2)[d] == b.subrange(m.b_start as int, j2)[d] by {
            assert(a[m.a_start + d] == b[m.b_start + d]);
        }
        assert(apply_edits(a, b, eq) =~= b.subrange(m.b_start as int, j2));
    } else {
        assert(apply_edits(a, b, eq) =~= b.subrange(m.b_start as int, j2));
    }
    if ms.len() == 1 {
        assert(rest.len() == 0);
        assert(spans_of_from(rest, i2, j2) =~= Seq::<Span>::empty());
        assert(apply_edits(a, b, spans_of_from(rest, i2, j2)) =~= Seq::<u64>::empty());
        assert(apply_edits(a, b, full) =~= b.subrange(j, b.len() as int)) by {
            assert(b.subrange(j, m.b_start as int)
                + (b.subrange(m.b_start as int, j2) + Seq::<u64>::empty())
                =~= b.subrange(j, b.len() as int));
        }
    } else {
        assert(rest[0] == ms[1]);
        assert(rest.last() == ms.last());
        assert(forall|t: int| 0 <= t < rest.len() ==> rest[t] == ms[t + 1]);
        assert(i2 <= rest[0].a_start && j2 <= rest[0].b_start) by {
            assert(ms[0].a_start + ms[0].length <= ms[1].a_start);
        }
        lemma_spans_of_from_apply(a, b, rest, i2, j2);
        assert(apply_edits(a, b, full) =~= b.subrange(j, b.len() as int)) by {
            assert(b.subrange(j, m.b_start as int)
                + (b.subrange(m.b_start as int, j2) + b.subrange(j2, b.len() as int))
                =~= b.subrange(j, b.len() as int));
        }
    }
}

/// Composing one gap span and one equal span with an already
/// well-shaped tail keeps every span well shaped.
#[verifier::rlimit(100)]
#[verifier::spinoff_prover]
proof fn lemma_compose_shape(a: Seq<u64>, b: Seq<u64>, i: int, j: int, m: Match, rs: Seq<Span>)
    requires
        a.len() <= usize::MAX,
        b.len() <= usize::MAX,
        match_valid(a, b, m),
        m.length > 0,
        0 <= i <= m.a_start,
        0 <= j <= m.b_start,
        spans_shape_wf(a, b, rs),
    ensures
        spans_shape_wf(a, b, gap_spans(i, j, m) + equal_spans(m) + rs),
{
    let gap = gap_spans(i, j, m);
    let eq = equal_spans(m);
    let full = gap + eq + rs;
    let g = gap.len() as int;
    let e = eq.len() as int;
    assert(e == 1);
    assert(g > 0 ==> span_shape_wf(a, b, gap[0]));
    assert(span_shape_wf(a, b, eq[0]));
    assert forall|t: int| 0 <= t < full.len()
        implies span_shape_wf(a, b, #[trigger] full[t]) by {
        if t < g {
            assert(full[t] == gap[0]);
        } else if t < g + e {
            assert(full[t] == eq[0]);
        } else {
            assert(full[t] == rs[t - g - e]);
        }
    }
}

/// Putting one span in front of a chain that starts where the span ends
/// gives a chain that starts where the span starts.
#[verifier::rlimit(60)]
#[verifier::spinoff_prover]
proof fn lemma_chain_prepend(s: Span, ss: Seq<Span>, a1: int, b1: int)
    requires
        s.a_start <= s.a_end,
        s.b_start <= s.b_end,
        span_chain(ss, s.a_end as int, s.b_end as int, a1, b1),
    ensures
        span_chain(seq![s] + ss, s.a_start as int, s.b_start as int, a1, b1),
{
    let full = seq![s] + ss;
    assert(full[0] == s);
    assert(forall|t: int| 0 <= t < ss.len() ==> full[t + 1] == #[trigger] ss[t]);
    assert forall|t: int| 0 <= t < full.len()
        implies (#[trigger] full[t]).a_start <= full[t].a_end
            && full[t].b_start <= full[t].b_end by {
        if t > 0 {
            assert(full[t] == ss[t - 1]);
        }
    }
    assert forall|t1: int, t2: int| #![trigger full[t1], full[t2]]
        0 <= t1 && t2 == t1 + 1 && t2 < full.len()
        implies full[t1].a_end == full[t2].a_start
            && full[t1].b_end == full[t2].b_start by {
        if t1 == 0 {
            assert(full[1] == ss[0]);
            assert(ss[0].a_start == s.a_end && ss[0].b_start == s.b_end);
        } else {
            assert(full[t1] == ss[t1 - 1]);
            assert(full[t2] == ss[t2 - 1]);
        }
    }
    if ss.len() > 0 {
        assert(full.last() == ss.last());
    } else {
        assert(full.last() == s);
    }
}

/// Composing one gap span and one equal span with an already chained
/// tail yields one chain from the cursor to the ends of the sequences.
#[verifier::rlimit(100)]
#[verifier::spinoff_prover]
proof fn lemma_compose_chain(a: Seq<u64>, b: Seq<u64>, i: int, j: int, m: Match, rs: Seq<Span>)
    requires
        a.len() <= usize::MAX,
        b.len() <= usize::MAX,
        match_valid(a, b, m),
        m.length > 0,
        0 <= i <= m.a_start,
        0 <= j <= m.b_start,
        span_chain(rs, m.a_start + m.length, m.b_start + m.length, a.len() as int, b.len() as int),
    ensures
        span_chain(gap_spans(i, j, m) + equal_spans(m) + rs, i, j, a.len() as int, b.len() as int),
{
    let gap = gap_spans(i, j, m);
    let eq = equal_spans(m);
    let full = gap + eq + rs;
    assert(eq.len() == 1);
    let e0 = eq[0];
    assert(e0.a_start == m.a_start && e0.b_start == m.b_start
        && e0.a_end as int == m.a_start + m.length && e0.b_end as int == m.b_start + m.length);
    lemma_chain_prepend(e0, rs, a.len() as int, b.len() as int);
    assert(eq =~= seq![e0]);
    if gap.len() > 0 {
        let g0 = gap[0];
        assert(g0.a_start == i && g0.b_start == j
            && g0.a_end == m.a_start && g0.b_end == m.b_start);
        lemma_chain_prepend(g0, seq![e0] + rs, a.len() as int, b.len() as int);
        assert(full =~= seq![g0] + (seq![e0] + rs));
    } else {
        assert(i == m.a_start && j == m.b_start);
        assert(full =~= seq![e0] + rs);
    }
}

/// The other half: from any cursor `(i, j)` at or before the first match,
/// the derived spans chain exactly from `(i, j)` to the ends of the
/// sequences, and each span is well shaped for its tag.
#[verifier::rlimit(100)]
#[verifier::spinoff_prover]
pub proof fn lemma_spans_of_from_chain(a: Seq<u64>, b: Seq<u64>, ms: Seq<Match>, i: int, j: int)
    requires
        a.len() <= usize::MAX,
        b.len() <= usize::MAX,
        ms.len() >= 1,
        ms.last().a_start == a.len(),
        ms.last().b_start == b.len(),
        ms.last().length == 0,
        forall|t: int| 0 <= t < ms.len() - 1 ==> (#[trigger] ms[t]).length > 0,
        forall|t: int| 0 <= t < ms.len() ==> match_valid(a, b, #[trigger] ms[t]),
        ordered_matches(ms),
        0 <= i <= ms[0].a_start,
        0 <= j <= ms[0].b_start,
    ensures
        span_chain(spans_of_from(ms, i, j), i, j, a.len() as int, b.len() as int),
        spans_shape_wf(a, b, spans_of_from(ms, i, j)),
    decreases ms.len(),
{
    let m = ms[0];
    let gap = gap_spans(i, j, m);
    let eq = equal_spans(m);
    let rest = ms.drop_first();
    let i2 = m.a_start + m.length;
    let j2 = m.b_start + m.length;
    let full = spans_of_from(ms, i, j);
    let g = gap.len() as int;
    let rs = spans_of_from(rest, i2, j2);
    assert(match_valid(a, b, m));
    assert(full == gap + eq + rs);
    if ms.len() == 1 {
        assert(rest.len() == 0);
        assert(rs =~= Seq::<Span>::empty());
        assert(equal_spans(m).len() == 0);
        assert(full =~= gap);
        assert(g > 0 ==> gap[0].a_start == i && gap[0].b_start == j
            && gap[0].a_end == m.a_start && gap[0].b_end == m.b_start
            && span_shape_wf(a, b, gap[0]));
        assert(g == 0 ==> i == m.a_start && j == m.b_start);
        assert(span_chain(full, i, j, a.len() as int, b.len() as int));
        assert(spans_shape_wf(a, b, full));
    } else {
        assert(rest[0] == ms[1]);
        assert(rest.last() == ms.last());
        assert(forall|t: int| 0 <= t < rest.len() ==> rest[t] == ms[t + 1]);
        assert(i2 <= rest[0].a_start && j2 <= rest[0].b_start) by {
            assert(ms[0].a_start + ms[0].length <= ms[1].a_start);
        }
        lemma_spans_of_from_chain(a, b, rest, i2, j2);
        lemma_compose_shape(a, b, i, j, m, rs);
        lemma_compose_chain(a, b, i, j, m, rs);
    }
}

/// What the spans are when either sequence is empty: nothing when both
/// are, one insertion covering all of `b` when only `a` is empty, one
/// deletion covering all of `a` when only `b` is.
#[verifier::rlimit(60)]
#[verifier::spinoff_prover]
pub proof fn lemma_spans_of_degenerate(a: Seq<u64>, b: Seq<u64>, ms: Seq<Match>)
    requires
        a.len() <= usize::MAX,
        b.len() <= usize::MAX,
        wf_matches(a, b, ms),
        a.len() == 0 || b.len() == 0,
    ensures
        a.len() == 0 && b.len() == 0 ==> spans_of(ms).len() == 0,
        a.len() == 0 && b.len() > 0 ==> spans_of(ms) == seq![(Span {
            tag: Tag::Insert,
            a_start: 0,
            a_end: 0,
            b_start: 0,
            b_end: b.len() as usize,
        })],
        b.len() == 0 && a.len() > 0 ==> spans_of(ms) == seq![(Span {
            tag: Tag::Delete,
            a_start: 0,
            a_end: a.len() as usize,
            b_start: 0,
            b_end: 0,
        })],
{
    assert(ms =~= seq![ms[0]]) by {
        if ms.len() >= 2 {
            assert(ms[0].length > 0);
            assert(match_valid(a, b, ms[0]));
            assert(false);
        }
    }
    let sent = ms[0];
    assert(sent.a_start == a.len() && sent.b_start == b.len() && sent.length == 0);
    assert(ms.drop_first() =~= Seq::<Match>::empty());
    assert(spans_of_from(ms.drop_first(), sent.a_start + sent.length,
        sent.b_start + sent.length) =~= Seq::<Span>::empty());
    assert(equal_spans(sent) =~= Seq::<Span>::empty());
    assert(spans_of(ms) =~= gap_spans(0, 0, sent) + Seq::<Span>::empty()
        + Seq::<Span>::empty());
    if a.len() == 0 && b.len() == 0 {
        assert(gap_spans(0, 0, sent) =~= Seq::<Span>::empty());
    } else if a.len() == 0 {
        assert(spans_of(ms) =~= seq![(Span {
            tag: Tag::Insert,
            a_start: 0,
            a_end: 0,
            b_start: 0,
            b_end: b.len() as usize,
        })]);
    } else {
        assert(spans_of(ms) =~= seq![(Span {
            tag: Tag::Delete,
            a_start: 0,
            a_end: a.len() as usize,
            b_start: 0,
            b_end: 0,
        })]);
    }
}

/// Law: the spans derived from a well-formed match list partition both
/// sequences: their `a`-ranges are contiguous and non-overlapping and
/// cover `[0, a.len())` exactly, likewise their `b`-ranges over
/// `[0, b.len())`, and every span is well shaped for its tag.
#[verifier::rlimit(60)]
#[verifier::spinoff_prover]
pub proof fn lemma_spans_partition(a: Seq<u64>, b: Seq<u64>, ms: Seq<Match>)
    requires
        a.len() <= usize::MAX,
        b.len() <= usize::MAX,
        wf_matches(a, b, ms),
    ensures
        span_chain(spans_of(ms), 0, 0, a.len() as int, b.len() as int),
        spans_shape_wf(a, b, spans_of(ms)),
{
    lemma_spans_of_from_chain(a, b, ms, 0, 0);
}

/// Law: applying the spans' edits in order — copy `a`'s range for an
/// `Equal` span, skip a `Delete`, take `b`'s range for an `Insert` or
/// `Replace` — reproduces `b` exactly.
#[verifier::rlimit(60)]
#[verifier::spinoff_prover]
pub proof fn lemma_spans_reconstruct(a: Seq<u64>, b: Seq<u64>, ms: Seq<Match>)
    requires
        wf_matches(a, b, ms),
    ensures
        apply_edits(a, b, spans_of(ms)) == b,
{
    lemma_spans_of_from_apply(a, b, ms, 0, 0);
    assert(b.subrange(0, b.len() as int) =~= b);
}

/// The inductive core behind the absence of adjacent `Equal` spans: the
/// first derived span is `Equal` only when the cursor already sits at the
/// first match.
#[verifier::rlimit(100)]
#[verifier::spinoff_prover]
pub proof fn lemma_spans_of_from_no_adj_equal(a: Seq<u64>, b: Seq<u64>, ms: Seq<Match>, i: int, j: int)
    requires
        ms.len() >= 1,
        ms.last().a_start == a.len(),
        ms.last().b_start == b.len(),
        ms.last().length == 0,
        forall|t: int| 0 <= t < ms.len() - 1 ==> (#[trigger] ms[t]).length > 0,
        forall|t: int| 0 <= t < ms.len() ==> match_valid(a, b, #[trigger] ms[t]),
        ordered_matches(ms),
        merged_matches(ms),
        0 <= i <= ms[0].a_start,
        0 <= j <= ms[0].b_start,
    ensures
        no_adjacent_equal(spans_of_from(ms, i, j)),
        spans_of_from(ms, i, j).len() > 0 && spans_of_from(ms, i, j)[0].tag == Tag::Equal
            ==> i == ms[0].a_start && j == ms[0].b_start,
    decreases ms.len(),
{
    let m = ms[0];
    let gap = gap_spans(i, j, m);
    let eq = equal_spans(m);
    let rest = ms.drop_first();
    let i2 = m.a_start + m.length;
    let j2 = m.b_start + m.length;
    let full = spans_of_from(ms, i, j);
    assert(full == gap + eq + spans_of_from(rest, i2, j2));
    if ms.len() == 1 {
        assert(spans_of_from(rest, i2, j2) =~= Seq::<Span>::empty());
        assert(full =~= gap);
    } else {
        assert(rest[0] == ms[1]);
        assert(rest.last() == ms.last());
        assert(forall|t: int| 0 <= t < rest.len() ==> rest[t] == ms[t + 1]);
        assert(i2 <= rest[0].a_start && j2 <= rest[0].b_start) by {
            assert(ms[0].a_start + ms[0].length <= ms[1].a_start);
        }
        lemma_spans_of_from_no_adj_equal(a, b, rest, i2, j2);
        let rs = spans_of_from(rest, i2, j2);
        assert(rs.len() > 0 ==> rs[0].tag != Tag::Equal) by {
            if rs.len() > 0 && rs[0].tag == Tag::Equal {
                assert(i2 == ms[1].a_start && j2 == ms[1].b_start);
                if ms.len() == 2 {
                    assert(rest.len() == 1);
                    assert(gap_spans(i2, j2, rest[0]) =~= Seq::<Span>::empty());
                    assert(equal_spans(rest[0]) =~= Seq::<Span>::empty());
                    assert(spans_of_from(rest.drop_first(),
                        rest[0].a_start + rest[0].length,
                        rest[0].b_start + rest[0].length) =~= Seq::<Span>::empty());
                    assert(rs =~= Seq::<Span>::empty());
                    assert(false);
                } else {
                    assert(ms[1].length > 0);
                    assert(adjacent_matches(ms[0], ms[1]));
                    assert(!adjacent_matches(ms[0], ms[1]));
                    assert(false);
                }
            }
        }
        let g = gap.len() as int;
        let e = eq.len() as int;
        assert forall|t1: int, t2: int| #![trigger full[t1], full[t2]]
            0 <= t1 && t2 == t1 + 1 && t2 < full.len()
            implies !(full[t1].tag == Tag::Equal && full[t2].tag == Tag::Equal) by {
            if t1 < g {
                assert(full[t1] == gap[0]);
                assert(gap[0].tag != Tag::Equal);
            } else if t1 < g + e {
                assert(full[t1] == eq[t1 - g]);
                assert(full[t2] == rs[t2 - g - e]);
                assert(rs[0].tag != Tag::Equal);
            } else {
                assert(full[t1] == rs[t1 - g - e]);
                assert(full[t2] == rs[t2 - g - e]);
            }
        }
    }
}

/// Law: among the spans derived from a well-formed, fully merged match
/// list, no two consecutive spans both carry the `Equal` tag.
#[verifier::rlimit(60)]
#[verifier::spinoff_prover]
pub proof fn lemma_spans_no_adjacent_equal(a: Seq<u64>, b: Seq<u64>, ms: Seq<Match>)
    requires
        wf_matches(a, b, ms),
        merged_matches(ms),
    ensures
        no_adjacent_equal(spans_of(ms)),
{
    lemma_spans_of_from_no_adj_equal(a, b, ms, 0, 0);
}

} // verus!
