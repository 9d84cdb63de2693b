//! The result types: a `Match` between the two sequences, and a tagged
//! `Span` describing one edit step.

use vstd::prelude::*;

verus! {

/// Holds the start indexes and length of one match: a contiguous run of
/// `length` items that is the same in both sequences, starting at
/// `a_start` in sequence `a` and at `b_start` in sequence `b`.
#[derive(Debug, Clone, Copy, PartialEq, Eq, Structural, PartialOrd, Ord)]
pub struct Match {
    pub a_start: usize,
    pub b_start: usize,
    pub length: usize,
}

impl Match {
    pub fn new(a_start: usize, b_start: usize, length: usize) -> (m: Match)
        ensures
            m.a_start == a_start,
            m.b_start == b_start,
            m.length == length,
    {
        Match { a_start, b_start, length }
    }
}

/// Used in a [`Span`] to indicate what kind of span it is.
#[derive(Debug, Clone, Copy, PartialEq, Eq, Structural)]
pub enum Tag {
    Equal,
    Insert,
    Delete,
    Replace,
}

/// Holds the data describing one span: what kind of span it is (the
/// [`Tag`]) and the start and end indexes in sequence `a` and `b`.
///
/// The indexes are half-open ranges, so go from the start up to one
/// position before the end.
#[derive(Debug, Clone, Copy, PartialEq, Eq, Structural)]
pub struct Span {
    pub tag: Tag,
    pub a_start: usize,
    pub a_end: usize,
    pub b_start: usize,
    pub b_end: usize,
}

impl Span {
    pub fn equal(a_start: usize, a_end: usize, b_start: usize, b_end: usize) -> (s: Span)
        ensures
            s == (Span { tag: Tag::Equal, a_start, a_end, b_start, b_end }),
    {
        Span { tag: Tag::Equal, a_start, a_end, b_start, b_end }
    }

    pub fn insert(a_start: usize, a_end: usize, b_start: usize, b_end: usize) -> (s: Span)
        ensures
            s == (Span { tag: Tag::Insert, a_start, a_end, b_start, b_end }),
    {
        Span { tag: Tag::Insert, a_start, a_end, b_start, b_end }
    }

    pub fn delete(a_start: usize, a_end: usize, b_start: usize, b_end: usize) -> (s: Span)
        ensures
            s == (Span { tag: Tag::Delete, a_start, a_end, b_start, b_end }),
    {
        Span { tag: Tag::Delete, a_start, a_end, b_start, b_end }
    }

    pub fn replace(a_start: usize, a_end: usize, b_start: usize, b_end: usize) -> (s: Span)
        ensures
            s == (Span { tag: Tag::Replace, a_start, a_end, b_start, b_end }),
    {
        Span { tag: Tag::Replace, a_start, a_end, b_start, b_end }
    }
}

} // verus!
