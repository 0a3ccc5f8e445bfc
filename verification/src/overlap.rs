//! Interval-overlap checks over pairs of inclusive integer spans, and a
//! counter over a line-per-pair input format (`a-b,c-d`).

use vstd::prelude::*;

use crate::SolveError;
use crate::text::lines_of;
use crate::text::num_of;
use crate::text::parse_u32;
use crate::text::parses_to;
use crate::text::split_byte;
use crate::text::split_lines;
use crate::text::split_on;

verus! {

/// An inclusive integer interval `[start, end]`.
#[derive(Clone, Copy, PartialEq, Eq, Structural, Debug)]
pub struct Span {
    pub start: i32,
    pub end: i32,
}

/// One interval contains the other entirely.
pub open spec fn fully_overlaps(a: Span, b: Span) -> bool {
    (a.start <= b.start && a.end >= b.end) || (b.start <= a.start && b.end >= a.end)
}

/// The intervals share at least one point (for well-formed intervals).
pub open spec fn partially_overlaps(a: Span, b: Span) -> bool {
    (a.start <= b.start && a.end >= b.start) || (b.start <= a.start && b.end >= a.start)
}

pub fn is_fully_overlapping(a: Span, b: Span) -> (r: bool)
    ensures
        r == fully_overlaps(a, b),
{
    (a.start <= b.start && a.end >= b.end) || (b.start <= a.start && b.end >= a.end)
}

pub fn is_partially_overlapping(a: Span, b: Span) -> (r: bool)
    ensures
        r == partially_overlaps(a, b),
{
    (a.start <= b.start && a.end >= b.start) || (b.start <= a.start && b.end >= a.start)
}

/// Law: both overlap predicates are symmetric in their two arguments.
pub proof fn lemma_overlap_symmetric(a: Span, b: Span)
    ensures
        fully_overlaps(a, b) == fully_overlaps(b, a),
        partially_overlaps(a, b) == partially_overlaps(b, a),
{
}

/// The span denoted by `lo-hi`, if the text is exactly two dash-joined
/// decimal numbers in `i32` range.
pub open spec fn parse_span_spec(part: Seq<u8>) -> Option<Span> {
    let ds = split_on(part, 45u8);
    if ds.len() == 2 && parses_to(ds[0], i32::MAX as int) && parses_to(ds[1], i32::MAX as int) {
        Some(Span { start: num_of(ds[0]) as i32, end: num_of(ds[1]) as i32 })
    } else {
        None
    }
}

/// The span pair denoted by a `a-b,c-d` line.
pub open spec fn parse_line_spec(line: Seq<u8>) -> Option<(Span, Span)> {
    let cs = split_on(line, 44u8);
    if cs.len() == 2 {
        match (parse_span_spec(cs[0]), parse_span_spec(cs[1])) {
            (Some(a), Some(b)) => Some((a, b)),
            _ => None,
        }
    } else {
        None
    }
}

fn parse_span(part: &[u8]) -> (r: Result<Span, SolveError>)
    ensures
        match r {
            Ok(sp) => parse_span_spec(part@) == Some(sp),
            Err(e) => e == SolveError::Malformed && parse_span_spec(part@) is None,
        },
{
    let ds = split_byte(part, 45u8);
    if ds.len() != 2 {
        return Err(SolveError::Malformed);
    }
    proof {
        crate::text::lemma_deep_view_index(&ds, 0);
        crate::text::lemma_deep_view_index(&ds, 1);
    }
    let lo = parse_u32(ds[0].as_slice());
    let hi = parse_u32(ds[1].as_slice());
    match (lo, hi) {
        (Some(l), Some(h)) => {
            proof {
                crate::text::lemma_num_of_nonneg(ds@[0]@);
                crate::text::lemma_num_of_nonneg(ds@[1]@);
            }
            if l <= i32::MAX as u32 && h <= i32::MAX as u32 {
                Ok(Span { start: l as i32, end: h as i32 })
            } else {
                Err(SolveError::Malformed)
            }
        },
        _ => Err(SolveError::Malformed),
    }
}

/// Parses one `a-b,c-d` line into its two spans.
pub fn parse_line(line: &[u8]) -> (r: Result<(Span, Span), SolveError>)
    ensures
        match r {
            Ok(p) => parse_line_spec(line@) == Some(p),
            Err(e) => e == SolveError::Malformed && parse_line_spec(line@) is None,
        },
{
    let cs = split_byte(line, 44u8);
    if cs.len() != 2 {
        return Err(SolveError::Malformed);
    }
    proof {
        crate::text::lemma_deep_view_index(&cs, 0);
        crate::text::lemma_deep_view_index(&cs, 1);
    }
    let a = parse_span(cs[0].as_slice());
    let b = parse_span(cs[1].as_slice());
    match (a, b) {
        (Ok(x), Ok(y)) => Ok((x, y)),
        _ => Err(SolveError::Malformed),
    }
}

/// Which of the two overlap predicates a count is taken over.
#[derive(Clone, Copy, PartialEq, Eq, Structural, Debug)]
pub enum OverlapKind {
    Full,
    Partial,
}

pub open spec fn overlap_holds(kind: OverlapKind, a: Span, b: Span) -> bool {
    match kind {
        OverlapKind::Full => fully_overlaps(a, b),
        OverlapKind::Partial => partially_overlaps(a, b),
    }
}

/// The number of lines whose span pair satisfies the predicate; `None`
/// as soon as any line is malformed.
pub open spec fn count_overlaps(lines: Seq<Seq<u8>>, kind: OverlapKind) -> Option<int>
    decreases lines.len(),
{
    if lines.len() == 0 {
        Some(0)
    } else {
        match (count_overlaps(lines.drop_last(), kind), parse_line_spec(lines.last())) {
            (Some(c), Some((a, b))) => Some(c + if overlap_holds(kind, a, b) {
                1int
            } else {
                0int
            }),
            _ => None,
        }
    }
}

proof fn lemma_count_none_sticks(lines: Seq<Seq<u8>>, kind: OverlapKind, i: int)
    requires
        0 <= i <= lines.len(),
        count_overlaps(lines.take(i), kind) is None,
    ensures
        count_overlaps(lines, kind) is None,
    decreases lines.len() - i,
{
    if i < lines.len() {
        assert(lines.take(i + 1).drop_last() =~= lines.take(i));
        lemma_count_none_sticks(lines, kind, i + 1);
    } else {
        assert(lines.take(i) =~= lines);
    }
}

/// Counts the input lines whose two spans overlap in the given sense;
/// `Malformed` as soon as any line is not a well-formed span pair.
pub fn count(input: &[u8], kind: OverlapKind) -> (r: Result<u64, SolveError>)
    ensures
        match r {
            Ok(n) => count_overlaps(lines_of(input@), kind) == Some(n as int),
            Err(e) => e == SolveError::Malformed && count_overlaps(lines_of(input@), kind)
                is None,
        },
{
    let lines = split_lines(input);
    let ghost lseq = lines_of(input@);
    let mut n: u64 = 0;
    let mut i: usize = 0;
    while i < lines.len()
        invariant
            0 <= i <= lseq.len(),
            lines.deep_view() == lseq,
            lines@.len() == lseq.len(),
            n <= i,
            count_overlaps(lseq.take(i as int), kind) == Some(n as int),
        decreases lseq.len() - i,
    {
        proof {
            assert(lseq.take(i + 1).drop_last() =~= lseq.take(i as int));
            crate::text::lemma_deep_view_index(&lines, i as int);
        }
        match parse_line(lines[i].as_slice()) {
            Ok((a, b)) => {
                if match kind {
                    OverlapKind::Full => is_fully_overlapping(a, b),
                    OverlapKind::Partial => is_partially_overlapping(a, b),
                } {
                    n = n + 1;
                }
            },
            Err(_) => {
                proof {
                    lemma_count_none_sticks(lseq, kind, i + 1);
                }
                return Err(SolveError::Malformed);
            },
        }
        i += 1;
    }
    proof {
        assert(lseq.take(lseq.len() as int) =~= lseq);
    }
    Ok(n)
}

} // verus!
