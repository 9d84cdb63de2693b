//! Behavioural checks on concrete inputs: reconstruction, partition,
//! span merging, match ordering, longest-match optimality, and the
//! popularity filter's threshold.

use differ::{Differ, Match, Span, Tag, spans_for_matches};

/// Applies the spans' edits to `a`: copy `a`'s range for `Equal`, skip a
/// `Delete`, take `b`'s range for `Insert` and `Replace`.
fn rebuild(a: &[u64], b: &[u64], spans: &[Span]) -> Vec<u64> {
    let mut out = Vec::new();
    for s in spans {
        match s.tag {
            Tag::Equal => out.extend_from_slice(&a[s.a_start..s.a_end]),
            Tag::Delete => {}
            Tag::Insert => out.extend_from_slice(&b[s.b_start..s.b_end]),
            Tag::Replace => out.extend_from_slice(&b[s.b_start..s.b_end]),
        }
    }
    out
}

fn check_partition(a_len: usize, b_len: usize, spans: &[Span]) {
    let mut i = 0;
    let mut j = 0;
    for s in spans {
        assert_eq!(s.a_start, i);
        assert_eq!(s.b_start, j);
        assert!(s.a_start <= s.a_end);
        assert!(s.b_start <= s.b_end);
        i = s.a_end;
        j = s.b_end;
    }
    assert_eq!(i, a_len);
    assert_eq!(j, b_len);
}

#[test]
fn reconstruction_rebuilds_b() {
    let cases: Vec<(Vec<u64>, Vec<u64>)> = vec![
        (vec![9, 1, 2, 8, 3, 4], vec![1, 2, 7, 3, 4, 5]),
        (vec![], vec![1, 2, 3]),
        (vec![1, 2, 3], vec![]),
        (vec![5, 5, 5], vec![5, 5, 5]),
        (vec![1, 2, 3, 4], vec![4, 3, 2, 1]),
    ];
    for (a, b) in &cases {
        let differ = Differ::new(a, b);
        let spans = differ.spans();
        assert_eq!(&rebuild(a, b, &spans), b);
    }
}

#[test]
fn spans_partition_both_sequences() {
    let a: Vec<u64> = vec![9, 1, 2, 8, 3, 4, 4, 0];
    let b: Vec<u64> = vec![1, 2, 7, 3, 4, 4, 5];
    let differ = Differ::new(&a, &b);
    let spans = differ.spans();
    check_partition(a.len(), b.len(), &spans);
}

#[test]
fn no_adjacent_equal_spans() {
    let a: Vec<u64> = vec![1, 2, 9, 3, 4, 8, 5, 6];
    let b: Vec<u64> = vec![1, 2, 7, 3, 4, 6, 5, 6];
    let differ = Differ::new(&a, &b);
    let spans = differ.spans();
    for w in spans.windows(2) {
        assert!(!(w[0].tag == Tag::Equal && w[1].tag == Tag::Equal));
    }
}

#[test]
fn matches_ordered_disjoint_with_sentinel() {
    let a: Vec<u64> = vec![9, 1, 2, 8, 3, 4, 1, 2];
    let b: Vec<u64> = vec![1, 2, 7, 3, 4, 5, 1, 2];
    let differ = Differ::new(&a, &b);
    let ms = differ.matches();
    assert!(!ms.is_empty());
    assert_eq!(*ms.last().unwrap(), Match::new(a.len(), b.len(), 0));
    for w in ms.windows(2) {
        assert!(w[0].a_start + w[0].length <= w[1].a_start);
        assert!(w[0].b_start + w[0].length <= w[1].b_start);
    }
    for m in &ms[..ms.len() - 1] {
        assert!(m.length > 0);
        for d in 0..m.length {
            assert_eq!(a[m.a_start + d], b[m.b_start + d]);
        }
    }
}

/// The length of the longest common run of `a` and `b`, found naively,
/// together with the start pair of its earliest occurrence.
fn brute_longest(a: &[u64], b: &[u64]) -> (usize, usize, usize) {
    let mut best = (0, 0, 0);
    for i in 0..a.len() {
        for j in 0..b.len() {
            let mut k = 0;
            while i + k < a.len() && j + k < b.len() && a[i + k] == b[j + k] {
                k += 1;
            }
            if k > best.2 {
                best = (i, j, k);
            }
        }
    }
    best
}

#[test]
fn longest_match_is_optimal() {
    let a: Vec<u64> = vec![3, 1, 4, 1, 5, 9, 2, 6, 5, 3, 5];
    let b: Vec<u64> = vec![2, 7, 1, 4, 1, 5, 9, 8, 2, 8];
    let differ = Differ::new(&a, &b);
    let m = differ.longest_match(0, a.len(), 0, b.len());
    let (bi, bj, bk) = brute_longest(&a, &b);
    assert_eq!(m.length, bk);
    assert_eq!(m.a_start, bi);
    assert_eq!(m.b_start, bj);
    for d in 0..m.length {
        assert_eq!(a[m.a_start + d], b[m.b_start + d]);
    }
}

#[test]
fn longest_match_ties_resolve_to_smallest_a_start() {
    // Two distinct common runs of the maximal length two.
    let a: Vec<u64> = vec![1, 2, 9, 3, 4];
    let b: Vec<u64> = vec![3, 4, 8, 1, 2];
    let differ = Differ::new(&a, &b);
    let m = differ.longest_match(0, a.len(), 0, b.len());
    assert_eq!(m, Match::new(0, 3, 2));
}

#[test]
fn longest_match_empty_range_is_zero_length() {
    let a: Vec<u64> = vec![1, 2, 3];
    let b: Vec<u64> = vec![1, 2, 3];
    let differ = Differ::new(&a, &b);
    let m = differ.longest_match(1, 1, 0, 3);
    assert_eq!(m, Match::new(1, 0, 0));
}

#[test]
fn equal_sequences_give_one_equal_span() {
    let a: Vec<u64> = vec![1, 2, 3, 4, 5];
    let differ = Differ::new(&a, &a);
    let spans = differ.spans();
    assert_eq!(spans, vec![Span::equal(0, 5, 0, 5)]);
}

#[test]
fn match_at_position_zero() {
    let a: Vec<u64> = vec![1, 2, 3];
    let b: Vec<u64> = vec![1, 9, 3];
    let differ = Differ::new(&a, &b);
    let spans = differ.spans();
    let expected = vec![
        Span::equal(0, 1, 0, 1),
        Span::replace(1, 2, 1, 2),
        Span::equal(2, 3, 2, 3),
    ];
    assert_eq!(spans, expected);
}

/// A 200-item sequence whose filler values are all distinct, with `7`
/// placed at the given positions.
fn filler_with_sevens(positions: &[usize]) -> Vec<u64> {
    let mut b: Vec<u64> = (0..200).map(|p| 1000 + p as u64).collect();
    for &p in positions {
        b[p] = 7;
    }
    b
}

#[test]
fn popularity_filter_drops_frequent_item() {
    // With 200 items the limit is 200 / 100 + 1 = 3: four occurrences of
    // the value 7 are junk-filtered, so the matcher no longer sees it.
    let a: Vec<u64> = vec![7];
    let b = filler_with_sevens(&[10, 50, 90, 130]);
    let differ = Differ::new(&a, &b);
    let spans = differ.spans();
    assert_eq!(spans, vec![Span::replace(0, 1, 0, 200)]);
}

#[test]
fn popularity_filter_keeps_item_at_limit() {
    // Three occurrences sit exactly at the limit and stay in the index.
    let a: Vec<u64> = vec![7];
    let b = filler_with_sevens(&[10, 50, 90]);
    let differ = Differ::new(&a, &b);
    let spans = differ.spans();
    let expected = vec![
        Span::insert(0, 0, 0, 10),
        Span::equal(0, 1, 10, 11),
        Span::insert(1, 1, 11, 200),
    ];
    assert_eq!(spans, expected);
}

#[test]
fn filtered_spans_still_rebuild_b() {
    // Junk filtering changes which matches are found, never the
    // correctness of the resulting edits.
    let a = filler_with_sevens(&[0, 3, 6, 9, 12]);
    let b = filler_with_sevens(&[1, 4, 7, 10, 13]);
    let differ = Differ::new(&a, &b);
    let spans = differ.spans();
    check_partition(a.len(), b.len(), &spans);
    assert_eq!(rebuild(&a, &b, &spans), b);
}

#[test]
fn spans_for_matches_classifies_gaps() {
    // A pure function of the match list: one gap of each kind.
    let ms = vec![
        Match::new(2, 0, 2),  // delete before it
        Match::new(4, 3, 1),  // insert before it
        Match::new(6, 5, 2),  // replace before it
        Match::new(8, 7, 0),  // the sentinel
    ];
    let spans = spans_for_matches(&ms);
    let expected = vec![
        Span::delete(0, 2, 0, 0),
        Span::equal(2, 4, 0, 2),
        Span::insert(4, 4, 2, 3),
        Span::equal(4, 5, 3, 4),
        Span::replace(5, 6, 4, 5),
        Span::equal(6, 8, 5, 7),
    ];
    assert_eq!(spans, expected);
}
