//! The matching engine: an index over sequence `b`, the longest-match
//! finder, the recursive matcher and the span classifier.

use vstd::prelude::*;
use crate::structs::{Match, Span, Tag};
use crate::model::{
    spans_of_from, gap_spans, equal_spans, positions_of, is_junk, no_junk,
    popularity_limit, run_matches, valid_run_in, run_end_len, match_valid, wf_matches,
    merged_matches, adjacent_matches, lex_at_most, scan_bound, dp_processed,
    region_of_match, region_of_quad, regions_apart, quad_wf, quad_extent, sum_extents,
    match_le, sorted_matches, pairwise_apart, span_chain, spans_shape_wf,
    no_adjacent_equal, apply_edits,
    lemma_positions_of_props, lemma_positions_of_push, lemma_run_end_len_valid, lemma_run_le_end,
    lemma_sum_extents_push, lemma_run_concat, lemma_spans_partition, lemma_spans_reconstruct,
    lemma_spans_no_adjacent_equal, lemma_spans_of_degenerate,
};

verus! {

/// One index entry: an item value together with the ascending list of all
/// positions at which it occurs in sequence `b`.
struct PosEntry {
    value: u64,
    positions: Vec<usize>,
}

/// Provides methods for comparing two sequences.
pub struct Differ<'a> {
    a: &'a [u64],
    b: &'a [u64],
    b2j: Vec<PosEntry>,
}

impl<'a> Differ<'a> {
    /// The first sequence, as the engine sees it.
    pub closed spec fn a_seq(&self) -> Seq<u64> {
        self.a@
    }

    /// The second sequence, as the engine sees it.
    pub closed spec fn b_seq(&self) -> Seq<u64> {
        self.b@
    }

    /// The index is sound and complete for `b`: every entry lists exactly
    /// the positions of its value, entries are distinct and none is junk,
    /// and every non-junk item of `b` has an entry.
    pub closed spec fn wf(&self) -> bool {
        &&& forall|t: int| 0 <= t < self.b2j@.len()
            ==> (#[trigger] self.b2j@[t]).positions@ == positions_of(self.b@, self.b2j@[t].value)
        &&& forall|t: int| 0 <= t < self.b2j@.len()
            ==> (#[trigger] self.b2j@[t]).positions@.len() > 0
        &&& forall|t: int| 0 <= t < self.b2j@.len()
            ==> !is_junk(self.b@, (#[trigger] self.b2j@[t]).value)
        &&& forall|t1: int, t2: int| 0 <= t1 < t2 < self.b2j@.len()
            ==> (#[trigger] self.b2j@[t1]).value != (#[trigger] self.b2j@[t2]).value
        &&& forall|j: int| 0 <= j < self.b@.len() && !is_junk(self.b@, self.b@[j])
            ==> exists|t: int| 0 <= t < self.b2j@.len()
                && (#[trigger] self.b2j@[t]).value == self.b@[j]
    }

    /// Creates a new `Differ` and computes the comparison data: the index
    /// of `b`, junk-filtered when `b` has at least 200 items.
    ///
    /// To get all the spans (equals, insertions, deletions, replacements)
    /// necessary to convert sequence `a` into `b`, use
    /// [`spans()`](Differ::spans). To get all the matches (the positions
    /// and lengths) where `a` and `b` are the same, use
    /// [`matches()`](Differ::matches).
    #[verifier::rlimit(40)]
    #[verifier::spinoff_prover]
    pub fn new(a: &'a [u64], b: &'a [u64]) -> (d: Differ<'a>)
        ensures
            d.wf(),
            d.a_seq() == a@,
            d.b_seq() == b@,
    {
        let mut b2j: Vec<PosEntry> = Vec::new();
        let mut i: usize = 0;
        while i < b.len()
            invariant
                i <= b@.len(),
                forall|t: int| 0 <= t < b2j@.len()
                    ==> (#[trigger] b2j@[t]).positions@ == positions_of(b@, b2j@[t].value),
                forall|t: int| 0 <= t < b2j@.len()
                    ==> (#[trigger] b2j@[t]).positions@.len() > 0,
                forall|t1: int, t2: int| 0 <= t1 < t2 < b2j@.len()
                    ==> (#[trigger] b2j@[t1]).value != (#[trigger] b2j@[t2]).value,
                forall|j: int| #![trigger b@[j]] 0 <= j < i
                    ==> exists|t: int| 0 <= t < b2j@.len()
                        && (#[trigger] b2j@[t]).value == b@[j],
            decreases b@.len() - i,
        {
            let ghost pre = b2j@;
            let v = b[i];
            let mut seen = false;
            let mut t: usize = 0;
            while t < b2j.len()
                invariant
                    t <= b2j@.len(),
                    seen <==> exists|u: int| 0 <= u < t
                        && (#[trigger] b2j@[u]).value == v,
                decreases b2j@.len() - t,
            {
                if b2j[t].value == v {
                    seen = true;
                }
                t = t + 1;
            }
            proof {
                assert(seen <==> exists|u: int| 0 <= u < pre.len()
                    && (#[trigger] pre[u]).value == v);
            }
            if !seen {
                let mut ps: Vec<usize> = Vec::new();
                let mut j: usize = 0;
                proof {
                    assert(positions_of(b@.take(0), v) =~= Seq::<usize>::empty());
                }
                while j < b.len()
                    invariant
                        j <= b@.len(),
                        ps@ == positions_of(b@.take(j as int), v),
                    decreases b@.len() - j,
                {
                    proof {
                        assert(b@.take(j as int).push(b@[j as int]) =~= b@.take(j as int + 1));
                        lemma_positions_of_push(b@.take(j as int), b@[j as int], v);
                    }
                    if b[j] == v {
                        ps.push(j);
                    }
                    j = j + 1;
                }
                proof {
                    assert(b@.take(b@.len() as int) =~= b@);
                    assert(ps@.len() > 0) by {
                        lemma_positions_of_props(b@, v);
                        assert(b@[i as int] == v);
                    }
                }
                b2j.push(PosEntry { value: v, positions: ps });
            }
            proof {
                assert forall|j: int| #![trigger b@[j]] 0 <= j <= i
                    implies exists|t2: int| 0 <= t2 < b2j@.len()
                        && (#[trigger] b2j@[t2]).value == b@[j] by {
                    if j < i {
                        let t2 = choose|t2: int| 0 <= t2 < pre.len()
                            && (#[trigger] pre[t2]).value == b@[j];
                        assert(b2j@[t2].value == b@[j]);
                    } else if seen {
                        let u = choose|u: int| 0 <= u < pre.len()
                            && (#[trigger] pre[u]).value == v;
                        assert(b2j@[u].value == b@[i as int]);
                    } else {
                        assert(b2j@[b2j@.len() - 1].value == b@[i as int]);
                    }
                }
            }
            i = i + 1;
        }
        // Junk filtering: drop any value that occurs disproportionately
        // often, to bound the matching cost.
        let blen = b.len();
        if blen >= 200 {
            let limit = blen / 100 + 1;
            let mut kept: Vec<PosEntry> = Vec::new();
            let ghost all = b2j@;
            let mut t: usize = 0;
            while t < b2j.len()
                invariant
                    t <= b2j@.len(),
                    b2j@ == all,
                    b@.len() == blen,
                    200 <= blen,
                    limit == popularity_limit(b@.len()),
                    forall|u: int| 0 <= u < all.len()
                        ==> (#[trigger] all[u]).positions@ == positions_of(b@, all[u].value),
                    forall|u: int| 0 <= u < all.len()
                        ==> (#[trigger] all[u]).positions@.len() > 0,
                    forall|u1: int, u2: int| 0 <= u1 < u2 < all.len()
                        ==> (#[trigger] all[u1]).value != (#[trigger] all[u2]).value,
                    forall|u: int| 0 <= u < kept@.len()
                        ==> (#[trigger] kept@[u]).positions@
                            == positions_of(b@, kept@[u].value),
                    forall|u: int| 0 <= u < kept@.len()
                        ==> (#[trigger] kept@[u]).positions@.len() > 0,
                    forall|u: int| 0 <= u < kept@.len()
                        ==> !is_junk(b@, (#[trigger] kept@[u]).value),
                    forall|u1: int, u2: int| 0 <= u1 < u2 < kept@.len()
                        ==> (#[trigger] kept@[u1]).value != (#[trigger] kept@[u2]).value,
                    forall|w: int| 0 <= w < kept@.len()
                        ==> exists|u: int| 0 <= u < t
                            && (#[trigger] kept@[w]).value == all[u].value,
                    forall|u: int| 0 <= u < t && !is_junk(b@, (#[trigger] all[u]).value)
                        ==> exists|w: int| 0 <= w < kept@.len()
                            && (#[trigger] kept@[w]).value == all[u].value,
                decreases b2j@.len() - t,
            {
                let ghost kept_pre = kept@;
                let keep = b2j[t].positions.len() <= limit;
                if keep {
                    let value = b2j[t].value;
                    let mut positions: Vec<usize> = Vec::new();
                    let mut w: usize = 0;
                    while w < b2j[t].positions.len()
                        invariant
                            t < b2j@.len(),
                            b2j@ == all,
                            w <= b2j@[t as int].positions@.len(),
                            positions@ == b2j@[t as int].positions@.take(w as int),
                        decreases b2j@[t as int].positions@.len() - w,
                    {
                        positions.push(b2j[t].positions[w]);
                        proof {
                            assert(positions@
                                =~= b2j@[t as int].positions@.take(w as int + 1));
                        }
                        w = w + 1;
                    }
                    proof {
                        assert(positions@ =~= b2j@[t as int].positions@);
                    }
                    kept.push(PosEntry { value, positions });
                }
                proof {
                    if keep {
                        let last = kept@.len() - 1;
                        assert(kept@[last].value == all[t as int].value);
                        assert(kept@[last].positions@ == positions_of(b@, all[t as int].value));
                        assert(!is_junk(b@, all[t as int].value));
                        assert forall|u1: int, u2: int| 0 <= u1 < u2 < kept@.len()
                            implies (#[trigger] kept@[u1]).value
                                != (#[trigger] kept@[u2]).value by {
                            if u2 == last {
                                let u = choose|u: int| 0 <= u < t
                                    && (#[trigger] kept_pre[u1]).value == all[u].value;
                                assert(all[u].value != all[t as int].value);
                            }
                        }
                    } else {
                        assert(is_junk(b@, all[t as int].value));
                    }
                    assert forall|u: int| 0 <= u <= t && !is_junk(b@, (#[trigger] all[u]).value)
                        implies exists|w: int| 0 <= w < kept@.len()
                            && (#[trigger] kept@[w]).value == all[u].value by {
                        if u < t {
                            let w = choose|w: int| 0 <= w < kept_pre.len()
                                && (#[trigger] kept_pre[w]).value == all[u].value;
                            assert(kept@[w].value == all[u].value);
                        } else {
                            assert(keep);
                            assert(kept@[kept@.len() - 1].value == all[u].value);
                        }
                    }
                }
                t = t + 1;
            }
            Differ { a, b, b2j: kept }
        } else {
            proof {
                assert(forall|t: int| 0 <= t < b2j@.len()
                    ==> !is_junk(b@, (#[trigger] b2j@[t]).value));
            }
            Differ { a, b, b2j }
        }
    }

    /// Returns all the spans (equals, insertions, deletions, replacements)
    /// necessary to convert sequence `a` into `b`.
    ///
    /// The spans partition both sequences: their `a`-ranges cover
    /// `[0, a.len())` contiguously and without overlap, likewise their
    /// `b`-ranges; no two consecutive spans are both `Equal`; and applying
    /// the spans' edits in order to `a` reproduces `b` exactly.
    ///
    /// If you need both the matches and the spans, use
    /// [`matches()`](Differ::matches), and then use [`spans_for_matches`].
    #[verifier::loop_isolation(false)]
    #[verifier::rlimit(100)]
    #[verifier::spinoff_prover]
    pub fn spans(&self) -> (r: Vec<Span>)
        requires
            self.wf(),
        ensures
            span_chain(r@, 0, 0, self.a_seq().len() as int, self.b_seq().len() as int),
            spans_shape_wf(self.a_seq(), self.b_seq(), r@),
            no_adjacent_equal(r@),
            apply_edits(self.a_seq(), self.b_seq(), r@) == self.b_seq(),
            self.a_seq().len() == 0 && self.b_seq().len() == 0 ==> r@.len() == 0,
            self.a_seq().len() == 0 && self.b_seq().len() > 0 ==> r@ == seq![(Span {
                tag: Tag::Insert,
                a_start: 0,
                a_end: 0,
                b_start: 0,
                b_end: self.b_seq().len() as usize,
            })],
            self.b_seq().len() == 0 && self.a_seq().len() > 0 ==> r@ == seq![(Span {
                tag: Tag::Delete,
                a_start: 0,
                a_end: self.a_seq().len() as usize,
                b_start: 0,
                b_end: 0,
            })],
    {
        let ghost aa = self.a@;
        let ghost bb = self.b@;
        // Binds the sequence lengths to machine words, which the proofs need.
        let _a_len = self.a.len();
        let _b_len = self.b.len();
        let matches = self.matches();
        let ghost msv = matches@;
        proof {
            lemma_spans_partition(aa, bb, msv);
            lemma_spans_reconstruct(aa, bb, msv);
            lemma_spans_no_adjacent_equal(aa, bb, msv);
            if aa.len() == 0 || bb.len() == 0 {
                lemma_spans_of_degenerate(aa, bb, msv);
            }
        }
        spans_for_matches(matches.as_slice())
    }

    /// Returns every [`Match`] between the two sequences.
    ///
    /// The differences are the spans between matches.
    ///
    /// The matches are sorted ascending by `a_start` (equivalently
    /// `b_start`), do not overlap on either axis, never touch end to
    /// start, and the list ends with the zero-length sentinel match at
    /// `(a.len(), b.len())`.
    ///
    /// To get all the spans (equals, insertions, deletions, replacements)
    /// necessary to convert sequence `a` into `b`, use
    /// [`spans()`](Differ::spans).
    #[verifier::loop_isolation(false)]
    #[verifier::rlimit(100)]
    #[verifier::spinoff_prover]
    pub fn matches(&self) -> (ms: Vec<Match>)
        requires
            self.wf(),
        ensures
            wf_matches(self.a_seq(), self.b_seq(), ms@),
            merged_matches(ms@),
            no_junk(self.b_seq()) && (exists|i: int, j: int|
                #![trigger self.a_seq()[i], self.b_seq()[j]]
                0 <= i < self.a_seq().len() && 0 <= j < self.b_seq().len()
                    && self.a_seq()[i] == self.b_seq()[j]) ==> ms@.len() >= 2,
    {
        let ghost aa = self.a@;
        let ghost bb = self.b@;
        let a_len = self.a.len();
        let b_len = self.b.len();
        let ghost nj = no_junk(bb);
        let ghost has_common = exists|i: int, j: int| #![trigger aa[i], bb[j]]
            0 <= i < aa.len() && 0 <= j < bb.len() && aa[i] == bb[j];
        let mut queue: Vec<(usize, usize, usize, usize)> = Vec::new();
        queue.push((0, a_len, 0, b_len));
        let ghost init_quad = queue@[0];
        let mut found: Vec<Match> = Vec::new();
        while queue.len() > 0
            invariant
                init_quad == (0usize, a_len, 0usize, b_len),
                nj && has_common ==> found@.len() > 0 || exists|u: int|
                    0 <= u < queue@.len() && #[trigger] queue@[u] == init_quad,
                forall|t: int| 0 <= t < queue@.len() ==> quad_wf(aa, bb, #[trigger] queue@[t]),
                forall|t: int| 0 <= t < found@.len()
                    ==> match_valid(aa, bb, #[trigger] found@[t]) && found@[t].length > 0,
                forall|t1: int, t2: int| #![trigger queue@[t1], queue@[t2]]
                    0 <= t1 < t2 < queue@.len()
                    ==> regions_apart(region_of_quad(queue@[t1]), region_of_quad(queue@[t2])),
                pairwise_apart(found@),
                forall|t1: int, t2: int| #![trigger queue@[t1], found@[t2]]
                    0 <= t1 < queue@.len() && 0 <= t2 < found@.len()
                    ==> regions_apart(region_of_quad(queue@[t1]), region_of_match(found@[t2])),
            decreases sum_extents(queue@), queue@.len(),
        {
            let ghost old_queue = queue@;
            let quad = queue.pop().unwrap();
            proof {
                assert(old_queue.drop_last() == queue@);
                assert(old_queue.last() == quad);
                assert(sum_extents(old_queue) == sum_extents(queue@) + quad_extent(quad));
            }
            let (a_s, a_e, b_s, b_e) = quad;
            let m = self.longest_match(a_s, a_e, b_s, b_e);
            if m.length > 0 {
                let ghost rest = queue@;
                let ghost old_found = found@;
                found.push(m);
                proof {
                    assert forall|t1: int, t2: int| #![trigger found@[t1], found@[t2]]
                        0 <= t1 < t2 < found@.len()
                        implies regions_apart(region_of_match(found@[t1]),
                            region_of_match(found@[t2])) by {
                        if t2 < old_found.len() {
                            assert(regions_apart(region_of_match(old_found[t1]),
                                region_of_match(old_found[t2])));
                        } else {
                            assert(regions_apart(region_of_quad(old_queue[old_queue.len() - 1]),
                                region_of_match(old_found[t1])));
                        }
                    }
                    assert forall|t1: int, t2: int| #![trigger queue@[t1], found@[t2]]
                        0 <= t1 < queue@.len() && 0 <= t2 < found@.len()
                        implies regions_apart(region_of_quad(queue@[t1]),
                            region_of_match(found@[t2])) by {
                        if t2 < old_found.len() {
                            assert(regions_apart(region_of_quad(rest[t1]),
                                region_of_match(old_found[t2])));
                        } else {
                            assert(regions_apart(region_of_quad(old_queue[t1]),
                                region_of_quad(old_queue[old_queue.len() - 1])));
                        }
                    }
                }
                if a_s < m.a_start && b_s < m.b_start {
                    let ghost before = queue@;
                    queue.push((a_s, m.a_start, b_s, m.b_start));
                    proof {
                        lemma_sum_extents_push(before, (a_s, m.a_start, b_s, m.b_start));
                        assert forall|t1: int, t2: int| #![trigger queue@[t1], queue@[t2]]
                            0 <= t1 < t2 < queue@.len()
                            implies regions_apart(region_of_quad(queue@[t1]),
                                region_of_quad(queue@[t2])) by {
                            if t2 == queue@.len() - 1 {
                                assert(regions_apart(region_of_quad(old_queue[t1]),
                                    region_of_quad(old_queue[old_queue.len() - 1])));
                            } else {
                                assert(regions_apart(region_of_quad(before[t1]),
                                    region_of_quad(before[t2])));
                            }
                        }
                        assert forall|t1: int, t2: int| #![trigger queue@[t1], found@[t2]]
                            0 <= t1 < queue@.len() && 0 <= t2 < found@.len()
                            implies regions_apart(region_of_quad(queue@[t1]),
                                region_of_match(found@[t2])) by {
                            if t1 < before.len() {
                                assert(regions_apart(region_of_quad(before[t1]),
                                    region_of_match(found@[t2])));
                            } else if t2 < old_found.len() {
                                assert(regions_apart(region_of_quad(old_queue[old_queue.len() - 1]),
                                    region_of_match(old_found[t2])));
                            }
                        }
                    }
                }
                if m.a_start + m.length < a_e && m.b_start + m.length < b_e {
                    let ghost before = queue@;
                    let quad2 = (m.a_start + m.length, a_e, m.b_start + m.length, b_e);
                    queue.push(quad2);
                    proof {
                        lemma_sum_extents_push(before, quad2);
                        assert forall|t1: int, t2: int| #![trigger queue@[t1], queue@[t2]]
                            0 <= t1 < t2 < queue@.len()
                            implies regions_apart(region_of_quad(queue@[t1]),
                                region_of_quad(queue@[t2])) by {
                            if t2 == queue@.len() - 1 {
                                if t1 < rest.len() {
                                    assert(regions_apart(region_of_quad(old_queue[t1]),
                                        region_of_quad(old_queue[old_queue.len() - 1])));
                                }
                            } else {
                                assert(regions_apart(region_of_quad(before[t1]),
                                    region_of_quad(before[t2])));
                            }
                        }
                        assert forall|t1: int, t2: int| #![trigger queue@[t1], found@[t2]]
                            0 <= t1 < queue@.len() && 0 <= t2 < found@.len()
                            implies regions_apart(region_of_quad(queue@[t1]),
                                region_of_match(found@[t2])) by {
                            if t1 < before.len() {
                                assert(regions_apart(region_of_quad(before[t1]),
                                    region_of_match(found@[t2])));
                            } else if t2 < old_found.len() {
                                assert(regions_apart(region_of_quad(old_queue[old_queue.len() - 1]),
                                    region_of_match(old_found[t2])));
                            }
                        }
                    }
                }
            }
            proof {
                if nj && has_common && found@.len() == 0 {
                    let idx = choose|u: int| 0 <= u < old_queue.len()
                        && #[trigger] old_queue[u] == init_quad;
                    if idx == old_queue.len() - 1 {
                        let (ci, cj) = choose|ci: int, cj: int| #![trigger aa[ci], bb[cj]]
                            0 <= ci < aa.len() && 0 <= cj < bb.len()
                                && aa[ci] == bb[cj];
                        assert(valid_run_in(aa, bb, a_s as int, a_e as int, b_s as int,
                            b_e as int, ci, cj, 1)) by {
                            assert(aa[ci + 0] == bb[cj + 0]);
                        }
                        assert(1 <= m.length);
                        assert(false);
                    } else {
                        assert(queue@[idx] == init_quad);
                    }
                }
            }
        }
        sort_matches(Ghost(aa), Ghost(bb), &mut found);
        let ghost sm = found@;
        proof {
            assert forall|t1: int, t2: int| #![trigger sm[t1], sm[t2]]
                0 <= t1 && t2 == t1 + 1 && t2 < sm.len()
                implies sm[t1].a_start + sm[t1].length <= sm[t2].a_start
                    && sm[t1].b_start + sm[t1].length <= sm[t2].b_start by {
                assert(match_le(sm[t1], sm[t2]));
                assert(regions_apart(region_of_match(sm[t1]), region_of_match(sm[t2])));
            }
        }
        let mut out: Vec<Match> = Vec::new();
        let mut cur_a: usize = 0;
        let mut cur_b: usize = 0;
        let mut cur_len: usize = 0;
        let mut t: usize = 0;
        while t < found.len()
            invariant
                t <= sm.len(),
                found@ == sm,
                t == 0 ==> cur_len == 0 && cur_a == 0 && cur_b == 0 && out@.len() == 0,
                t > 0 ==> cur_len > 0,
                cur_len > 0 ==> cur_a + cur_len <= aa.len() && cur_b + cur_len <= bb.len()
                    && run_matches(aa, bb, cur_a as int, cur_b as int, cur_len as int),
                t > 0 ==> cur_a + cur_len == sm[t - 1].a_start + sm[t - 1].length
                    && cur_b + cur_len == sm[t - 1].b_start + sm[t - 1].length,
                forall|u: int| 0 <= u < out@.len()
                    ==> match_valid(aa, bb, #[trigger] out@[u]) && out@[u].length > 0,
                forall|u1: int, u2: int| #![trigger out@[u1], out@[u2]]
                    0 <= u1 && u2 == u1 + 1 && u2 < out@.len() ==> {
                        &&& out@[u1].a_start + out@[u1].length <= out@[u2].a_start
                        &&& out@[u1].b_start + out@[u1].length <= out@[u2].b_start
                        &&& !adjacent_matches(out@[u1], out@[u2])
                    },
                out@.len() > 0 && cur_len > 0 ==> {
                    &&& out@.last().a_start + out@.last().length <= cur_a
                    &&& out@.last().b_start + out@.last().length <= cur_b
                    &&& !(out@.last().a_start + out@.last().length == cur_a
                        && out@.last().b_start + out@.last().length == cur_b)
                },
                cur_len == 0 ==> out@.len() == 0,
            decreases sm.len() - t,
        {
            let m = found[t];
            if cur_a + cur_len == m.a_start && cur_b + cur_len == m.b_start {
                proof {
                    lemma_run_concat(aa, bb, cur_a as int, cur_b as int, cur_len as int,
                        m.length as int);
                }
                cur_len = cur_len + m.length;
            } else {
                if cur_len != 0 {
                    out.push(Match::new(cur_a, cur_b, cur_len));
                }
                cur_a = m.a_start;
                cur_b = m.b_start;
                cur_len = m.length;
            }
            t = t + 1;
        }
        if cur_len != 0 {
            out.push(Match::new(cur_a, cur_b, cur_len));
        }
        out.push(Match::new(a_len, b_len, 0));
        proof {
            assert(out@.last() == (Match { a_start: a_len, b_start: b_len, length: 0 }));
            assert(wf_matches(aa, bb, out@));
            assert(merged_matches(out@));
            if nj && has_common {
                assert(sm.len() > 0);
                assert(out@.len() >= 2);
            }
        }
        out
    }

    /// Returns the longest [`Match`] between the two given sequences,
    /// within the given index ranges.
    ///
    /// This is used internally, but may be useful, e.g., when called with
    /// say, `differ.longest_match(0, a.len(), 0, b.len())`.
    ///
    /// When no item of `b` was dropped by the popularity filter, the
    /// result is a longest common run within the ranges, and among runs of
    /// that length it is the one starting earliest in `a`, then earliest
    /// in `b`. A zero-length result sits at the start of the ranges and
    /// means no common item exists in range.
    #[verifier::loop_isolation(false)]
    #[verifier::rlimit(100)]
    #[verifier::spinoff_prover]
    pub fn longest_match(&self, a_start: usize, a_end: usize, b_start: usize, b_end: usize)
        -> (m: Match)
        requires
            self.wf(),
            a_start <= a_end && a_end <= self.a_seq().len(),
            b_start <= b_end && b_end <= self.b_seq().len(),
        ensures
            a_start <= m.a_start && m.a_start + m.length <= a_end,
            b_start <= m.b_start && m.b_start + m.length <= b_end,
            run_matches(self.a_seq(), self.b_seq(), m.a_start as int, m.b_start as int,
                m.length as int),
            m.length == 0 ==> m.a_start == a_start && m.b_start == b_start,
            no_junk(self.b_seq()) ==> forall|i: int, j: int, k: int|
                #[trigger] valid_run_in(self.a_seq(), self.b_seq(), a_start as int, a_end as int,
                    b_start as int, b_end as int, i, j, k) ==> k <= m.length,
            no_junk(self.b_seq()) ==> forall|i: int, j: int, k: int|
                #[trigger] valid_run_in(self.a_seq(), self.b_seq(), a_start as int, a_end as int,
                    b_start as int, b_end as int, i, j, k) && k == m.length && k > 0
                    ==> m.a_start < i || (m.a_start == i && m.b_start <= j),
    {
        let ghost aa = self.a@;
        let ghost bb = self.b@;
        // Binds the sequence length to a machine word, which the proofs need.
        let _b_len = self.b.len();
        let ghost al = a_start as int;
        let ghost bl = b_start as int;
        let ghost bh = b_end as int;
        let ghost nj = no_junk(bb);
        let mut best_i = a_start;
        let mut best_j = b_start;
        let mut best_size: usize = 0;
        let mut j2len = zero_vec(b_end);
        let mut i = a_start;
        proof {
            assert forall|q: int| bl <= q < bh
                implies #[trigger] run_end_len(aa, bb, al, bl, al - 1, q) == 0 by {
                assert(al - 1 < al);
            }
        }
        while i < a_end
            invariant
                a_start <= i && i <= a_end,
                j2len@.len() == b_end,
                forall|q: int| bl <= q < bh
                    ==> (#[trigger] j2len@[q]) <= run_end_len(aa, bb, al, bl, i - 1, q),
                nj ==> forall|q: int| bl <= q < bh
                    ==> (#[trigger] j2len@[q]) == run_end_len(aa, bb, al, bl, i - 1, q),
                best_size == 0 ==> best_i == a_start && best_j == b_start,
                a_start <= best_i && b_start <= best_j,
                best_i + best_size <= i && best_j + best_size <= b_end,
                run_matches(aa, bb, best_i as int, best_j as int, best_size as int),
                nj ==> forall|p: int, q: int| dp_processed(al, bl, bh, i as int, bl, p, q)
                    ==> #[trigger] run_end_len(aa, bb, al, bl, p, q) <= best_size,
                nj && best_size > 0 ==> run_end_len(aa, bb, al, bl, best_i + best_size - 1,
                    best_j + best_size - 1) == best_size,
                nj && best_size > 0 ==> dp_processed(al, bl, bh, i as int, bl,
                    best_i + best_size - 1, best_j + best_size - 1),
                nj && best_size > 0 ==> forall|p: int, q: int|
                    dp_processed(al, bl, bh, i as int, bl, p, q)
                        && #[trigger] run_end_len(aa, bb, al, bl, p, q) >= best_size
                        ==> lex_at_most(best_i + best_size - 1, best_j + best_size - 1, p, q),
            decreases a_end - i,
        {
            let ghost row = i as int;
            let mut newv = zero_vec(b_end);
            let v = self.a[i];
            proof {
                lemma_positions_of_props(bb, v);
            }
            let r = self.lookup(v);
            match r {
                Some(ps) => {
                    let ghost gps = ps@;
                    let mut t: usize = 0;
                    while t < ps.len() && ps[t] < b_end
                        invariant
                            t <= gps.len(),
                            ps@ == gps,
                            newv@.len() == b_end,
                            forall|q: int| bl <= q < bh
                                ==> (#[trigger] newv@[q])
                                    <= run_end_len(aa, bb, al, bl, row, q),
                            forall|q: int| bl <= q < bh && (#[trigger] newv@[q]) != 0
                                ==> bb[q] == v,
                            nj ==> forall|q: int| bl <= q < scan_bound(gps, t as int, bh)
                                ==> (#[trigger] newv@[q])
                                    == run_end_len(aa, bb, al, bl, row, q),
                            best_size == 0 ==> best_i == a_start && best_j == b_start,
                            a_start <= best_i && b_start <= best_j,
                            best_i + best_size <= i + 1 && best_j + best_size <= b_end,
                            run_matches(aa, bb, best_i as int, best_j as int, best_size as int),
                            nj ==> forall|p: int, q: int|
                                dp_processed(al, bl, bh, row, scan_bound(gps, t as int, bh), p, q)
                                    ==> #[trigger] run_end_len(aa, bb, al, bl, p, q) <= best_size,
                            nj && best_size > 0 ==> run_end_len(aa, bb, al, bl,
                                best_i + best_size - 1, best_j + best_size - 1) == best_size,
                            nj && best_size > 0 ==> dp_processed(al, bl, bh, row,
                                scan_bound(gps, t as int, bh), best_i + best_size - 1,
                                best_j + best_size - 1),
                            nj && best_size > 0 ==> forall|p: int, q: int|
                                dp_processed(al, bl, bh, row, scan_bound(gps, t as int, bh), p, q)
                                    && #[trigger] run_end_len(aa, bb, al, bl, p, q) >= best_size
                                    ==> lex_at_most(best_i + best_size - 1,
                                        best_j + best_size - 1, p, q),
                        decreases gps.len() - t,
                    {
                        let j = ps[t];
                        let ghost old_bound = scan_bound(gps, t as int, bh);
                        if j >= b_start {
                            proof {
                                assert(bb[j as int] == v);
                                lemma_run_end_len_valid(aa, bb, al, bl, row - 1, j - 1);
                                assert(run_end_len(aa, bb, al, bl, row, j as int)
                                    == 1 + run_end_len(aa, bb, al, bl, row - 1, j - 1));
                                lemma_run_end_len_valid(aa, bb, al, bl, row, j as int);
                            }
                            let k: usize;
                            if j > b_start && j2len[j - 1] != 0 {
                                k = j2len[j - 1] + 1;
                            } else {
                                k = 1;
                            }
                            proof {
                                let ghost ren = run_end_len(aa, bb, al, bl, row, j as int);
                                assert(k <= ren);
                                if nj {
                                    assert(run_end_len(aa, bb, al, bl, row - 1, j - 1)
                                        == j2len@[j - 1] || j - 1 < bl);
                                    assert(k == ren);
                                }
                                assert(k <= row - al + 1);
                                assert(k <= j - bl + 1);
                            }
                            newv[j] = k;
                            if k > best_size {
                                proof {
                                    let ghost ren = run_end_len(aa, bb, al, bl, row, j as int);
                                    assert forall|d: int| 0 <= d < k
                                        implies aa[row + 1 - k + d]
                                            == #[trigger] bb[j + 1 - k + d] by {
                                        assert(aa[(row + 1 - ren) + (ren - (k as int) + d)]
                                            == bb[(j + 1 - ren) + (ren - (k as int) + d)]);
                                    }
                                }
                                best_i = i + 1 - k;
                                best_j = j + 1 - k;
                                best_size = k;
                            }
                        }
                        t = t + 1;
                        proof {
                            let new_bound = scan_bound(gps, t as int, bh);
                            assert forall|q: int| old_bound <= q < new_bound && q != j as int
                                implies bb[q] != v by {
                                if bb[q] == v {
                                    let t2 = choose|t2: int| 0 <= t2 < gps.len()
                                        && #[trigger] gps[t2] == q;
                                    if t2 < t - 1 {
                                        assert(gps[t2] < gps[t - 1]);
                                    } else if t2 > t - 1 {
                                        assert(t2 >= t);
                                        if t < gps.len() {
                                            assert(t2 == t || gps[t as int] < gps[t2]);
                                        }
                                    }
                                }
                            }
                            assert forall|q: int| old_bound <= q < new_bound && q != j as int
                                implies #[trigger] run_end_len(aa, bb, al, bl, row, q) == 0
                                    && (bl <= q < bh ==> newv@[q] == 0) by {
                                assert(bb[q] != v);
                            }
                        }
                    }
                    proof {
                        assert(scan_bound(gps, t as int, bh) == bh);
                    }
                }
                None => {
                    proof {
                        if nj {
                            assert forall|q: int| bl <= q < bh
                                implies #[trigger] run_end_len(aa, bb, al, bl, row, q) == 0 by {
                                if q < bb.len() && bb[q] == v {
                                    assert(!is_junk(bb, bb[q]));
                                    assert(false);
                                }
                            }
                        }
                    }
                }
            }
            j2len = newv;
            i = i + 1;
        }
        let ghost pre_i = best_i as int;
        let ghost pre_j = best_j as int;
        let ghost pre_k = best_size as int;
        proof {
            if nj {
                assert forall|p: int, q: int| al <= p < a_end && bl <= q < bh
                    implies #[trigger] run_end_len(aa, bb, al, bl, p, q) <= pre_k by {
                    assert(dp_processed(al, bl, bh, a_end as int, bl, p, q));
                }
            }
        }
        while best_i > a_start && best_j > b_start
            && self.a[best_i - 1] == self.b[best_j - 1]
            invariant
                a_start <= best_i && b_start <= best_j,
                best_i + best_size <= a_end && best_j + best_size <= b_end,
                best_size == 0 ==> best_i == a_start && best_j == b_start,
                run_matches(aa, bb, best_i as int, best_j as int, best_size as int),
                nj ==> best_i == pre_i && best_j == pre_j && best_size == pre_k,
            decreases best_i,
        {
            proof {
                assert forall|d: int| 0 <= d < best_size + 1
                    implies aa[best_i - 1 + d] == #[trigger] bb[best_j - 1 + d] by {
                    if d > 0 {
                        assert(aa[best_i + (d - 1)] == bb[best_j + (d - 1)]);
                    }
                }
                if nj {
                    lemma_run_le_end(aa, bb, al, bl, best_i - 1, best_j - 1,
                        best_size + 1);
                    assert(run_end_len(aa, bb, al, bl, best_i + best_size - 1,
                        best_j + best_size - 1) <= pre_k);
                    assert(false);
                }
            }
            best_i = best_i - 1;
            best_j = best_j - 1;
            best_size = best_size + 1;
        }
        while best_i + best_size < a_end && best_j + best_size < b_end
            && self.a[best_i + best_size] == self.b[best_j + best_size]
            invariant
                a_start <= best_i && b_start <= best_j,
                best_i + best_size <= a_end && best_j + best_size <= b_end,
                best_size == 0 ==> best_i == a_start && best_j == b_start,
                run_matches(aa, bb, best_i as int, best_j as int, best_size as int),
                nj ==> best_i == pre_i && best_j == pre_j && best_size == pre_k,
            decreases a_end - best_i - best_size,
        {
            proof {
                assert forall|d: int| 0 <= d < best_size + 1
                    implies aa[best_i + d] == #[trigger] bb[best_j + d] by {
                }
                if nj {
                    lemma_run_le_end(aa, bb, al, bl, best_i as int, best_j as int,
                        best_size + 1);
                    assert(run_end_len(aa, bb, al, bl, best_i + best_size,
                        best_j + best_size) <= pre_k);
                    assert(false);
                }
            }
            best_size = best_size + 1;
        }
        proof {
            if nj {
                assert forall|i2: int, j2: int, k2: int|
                    #[trigger] valid_run_in(aa, bb, al, a_end as int, bl, bh, i2, j2, k2)
                        implies k2 <= best_size by {
                    if k2 > 0 {
                        lemma_run_le_end(aa, bb, al, bl, i2, j2, k2);
                        assert(run_end_len(aa, bb, al, bl, i2 + k2 - 1, j2 + k2 - 1) <= pre_k);
                    }
                }
                assert forall|i2: int, j2: int, k2: int|
                    #[trigger] valid_run_in(aa, bb, al, a_end as int, bl, bh, i2, j2, k2)
                        && k2 == best_size && k2 > 0
                        implies best_i < i2 || (best_i == i2 && best_j <= j2) by {
                    lemma_run_le_end(aa, bb, al, bl, i2, j2, k2);
                    assert(run_end_len(aa, bb, al, bl, i2 + k2 - 1, j2 + k2 - 1) >= pre_k);
                    assert(lex_at_most(pre_i + pre_k - 1, pre_j + pre_k - 1,
                        i2 + k2 - 1, j2 + k2 - 1));
                }
            }
        }
        Match::new(best_i, best_j, best_size)
    }

    /// Looks the item `v` up in the index: its full position list when `v`
    /// occurs in `b` and is not junk-filtered, nothing otherwise.
    fn lookup(&self, v: u64) -> (r: Option<&Vec<usize>>)
        requires
            self.wf(),
        ensures
            match r {
                Some(ps) => {
                    &&& ps@ == positions_of(self.b_seq(), v)
                    &&& ps@.len() > 0
                    &&& !is_junk(self.b_seq(), v)
                },
                None => is_junk(self.b_seq(), v)
                    || forall|j: int| 0 <= j < self.b_seq().len() ==> self.b_seq()[j] != v,
            },
    {
        let mut t: usize = 0;
        while t < self.b2j.len()
            invariant
                self.wf(),
                t <= self.b2j@.len(),
                forall|u: int| 0 <= u < t ==> (#[trigger] self.b2j@[u]).value != v,
            decreases self.b2j@.len() - t,
        {
            if self.b2j[t].value == v {
                return Some(&self.b2j[t].positions);
            }
            t = t + 1;
        }
        proof {
            if !is_junk(self.b@, v) {
                assert forall|j: int| 0 <= j < self.b@.len() implies self.b@[j] != v by {
                    if self.b@[j] == v {
                        let w = choose|w: int| 0 <= w < self.b2j@.len()
                            && (#[trigger] self.b2j@[w]).value == self.b@[j];
                        assert(self.b2j@[w].value != v);
                    }
                }
            }
        }
        None
    }
}

/// Whether `m1` comes no later than `m2` in the sorting order on matches.
fn match_le_exec(m1: &Match, m2: &Match) -> (r: bool)
    ensures
        r == match_le(*m1, *m2),
{
    if m1.a_start != m2.a_start {
        m1.a_start < m2.a_start
    } else if m1.b_start != m2.b_start {
        m1.b_start < m2.b_start
    } else {
        m1.length <= m2.length
    }
}

/// Sorts the matches by `(a_start, b_start, length)` by insertion,
/// keeping every match, its validity and the pairwise apartness of their
/// rectangles.
#[verifier::loop_isolation(false)]
#[verifier::rlimit(40)]
#[verifier::spinoff_prover]
fn sort_matches(Ghost(a): Ghost<Seq<u64>>, Ghost(b): Ghost<Seq<u64>>, ms: &mut Vec<Match>)
    requires
        forall|t: int| 0 <= t < old(ms)@.len()
            ==> match_valid(a, b, (#[trigger] old(ms)@[t])) && old(ms)@[t].length > 0,
        pairwise_apart(old(ms)@),
    ensures
        final(ms)@.len() == old(ms)@.len(),
        sorted_matches(final(ms)@),
        forall|t: int| 0 <= t < final(ms)@.len()
            ==> match_valid(a, b, (#[trigger] final(ms)@[t])) && final(ms)@[t].length > 0,
        pairwise_apart(final(ms)@),
{
    let ghost n = ms@.len();
    let mut idx: usize = 1;
    while idx < ms.len()
        invariant
            1 <= idx,
            ms@.len() == n,
            forall|t: int| 0 <= t < n ==> match_valid(a, b, (#[trigger] ms@[t]))
                && ms@[t].length > 0,
            pairwise_apart(ms@),
            forall|t1: int, t2: int| #![trigger ms@[t1], ms@[t2]]
                0 <= t1 < t2 < idx ==> match_le(ms@[t1], ms@[t2]),
        decreases n - idx,
    {
        let mut t = idx;
        while t > 0 && !match_le_exec(&ms[t - 1], &ms[t])
            invariant
                0 <= t <= idx < n,
                ms@.len() == n,
                forall|u: int| 0 <= u < n ==> match_valid(a, b, (#[trigger] ms@[u]))
                    && ms@[u].length > 0,
                pairwise_apart(ms@),
                forall|u1: int, u2: int| #![trigger ms@[u1], ms@[u2]]
                    0 <= u1 < u2 <= idx && u1 != t && u2 != t ==> match_le(ms@[u1], ms@[u2]),
                forall|u: int| #![trigger ms@[u]]
                    t < u <= idx ==> match_le(ms@[t as int], ms@[u]),
            decreases t,
        {
            let ghost before = ms@;
            let x = ms[t - 1];
            let y = ms[t];
            ms[t - 1] = y;
            ms[t] = x;
            proof {
                assert(ms@ =~= before.update(t - 1, before[t as int]).update(
                    t as int, before[t - 1]));
                assert forall|u1: int, u2: int| #![trigger ms@[u1], ms@[u2]]
                    0 <= u1 < u2 < n
                    implies regions_apart(region_of_match(ms@[u1]),
                        region_of_match(ms@[u2])) by {
                    let v1: int = if u1 == t - 1 { t as int } else if u1 == t { t - 1 } else { u1 };
                    let v2: int = if u2 == t - 1 { t as int } else if u2 == t { t - 1 } else { u2 };
                    assert(ms@[u1] == before[v1] && ms@[u2] == before[v2]);
                    if v1 < v2 {
                        assert(regions_apart(region_of_match(before[v1]),
                            region_of_match(before[v2])));
                    } else {
                        assert(regions_apart(region_of_match(before[v2]),
                            region_of_match(before[v1])));
                    }
                }
            }
            t = t - 1;
        }
        idx = idx + 1;
    }
}

/// A vector of `n` zeros, used as one column of the matching table.
fn zero_vec(n: usize) -> (v: Vec<usize>)
    ensures
        v@.len() == n,
        forall|t: int| 0 <= t < n ==> v@[t] == 0,
{
    let mut v: Vec<usize> = Vec::new();
    while v.len() < n
        invariant
            v@.len() <= n,
            forall|t: int| 0 <= t < v@.len() ==> v@[t] == 0,
        decreases n - v@.len(),
    {
        v.push(0);
    }
    v
}

/// Returns all the spans (equals, insertions, deletions, replacements)
/// necessary to convert sequence `a` into `b`, given the precomputed
/// matches.
///
/// Use this if you need both matches and spans, to avoid needlessly
/// recomputing the matches.
pub fn spans_for_matches(matches: &[Match]) -> (r: Vec<Span>)
    requires
        forall|t: int| 0 <= t < matches@.len() ==> {
            &&& (#[trigger] matches@[t]).a_start + matches@[t].length <= usize::MAX
            &&& matches@[t].b_start + matches@[t].length <= usize::MAX
        },
    ensures
        r@ == spans_of_from(matches@, 0, 0),
{
    let ghost ms = matches@;
    let mut spans: Vec<Span> = Vec::new();
    let mut i: usize = 0;
    let mut j: usize = 0;
    let mut t: usize = 0;
    proof {
        assert(ms.skip(0) =~= ms);
        assert(spans@ + spans_of_from(ms, 0, 0) =~= spans_of_from(ms, 0, 0));
    }
    while t < matches.len()
        invariant
            forall|u: int| 0 <= u < ms.len() ==> {
                &&& (#[trigger] ms[u]).a_start + ms[u].length <= usize::MAX
                &&& ms[u].b_start + ms[u].length <= usize::MAX
            },
            ms == matches@,
            0 <= t <= ms.len(),
            spans_of_from(ms, 0, 0) == spans@ + spans_of_from(ms.skip(t as int), i as int, j as int),
        decreases ms.len() - t,
    {
        let m = matches[t];
        proof {
            assert(ms.skip(t as int)[0] == ms[t as int]);
            assert(ms.skip(t as int).drop_first() =~= ms.skip(t as int + 1));
        }
        let ghost before = spans@;
        let ghost old_i = i as int;
        let ghost old_j = j as int;
        let mut span = Span::equal(i, m.a_start, j, m.b_start);
        if i < m.a_start && j < m.b_start {
            span.tag = Tag::Replace;
        } else if i < m.a_start {
            span.tag = Tag::Delete;
        } else if j < m.b_start {
            span.tag = Tag::Insert;
        }
        if span.tag != Tag::Equal {
            spans.push(span);
        }
        proof {
            assert(spans@ =~= before + gap_spans(old_i, old_j, ms[t as int]));
        }
        i = m.a_start + m.length;
        j = m.b_start + m.length;
        let ghost after_gap = spans@;
        if m.length != 0 {
            spans.push(Span::equal(m.a_start, i, m.b_start, j));
        }
        proof {
            assert(spans@ =~= after_gap + equal_spans(ms[t as int]));
            assert(spans_of_from(ms.skip(t as int), old_i, old_j)
                =~= gap_spans(old_i, old_j, ms[t as int]) + equal_spans(ms[t as int])
                    + spans_of_from(ms.skip(t as int + 1), i as int, j as int));
            assert(spans@ + spans_of_from(ms.skip(t as int + 1), i as int, j as int)
                =~= before + spans_of_from(ms.skip(t as int), old_i, old_j));
        }
        t = t + 1;
    }
    spans
}

} // verus!
