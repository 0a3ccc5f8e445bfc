//! Sliding-window uniqueness search: the first position where a window
//! of the given size holds pairwise-distinct bytes.

use vstd::prelude::*;

use crate::SolveError;

verus! {

/// All bytes of `s` in the half-open range `[lo, hi)` are pairwise
/// distinct.
pub open spec fn distinct_range(s: Seq<u8>, lo: int, hi: int) -> bool {
    forall|i: int, j: int| lo <= i < j < hi ==> s[i] != s[j]
}

/// Checks pairwise distinctness of `s[lo..hi)`.
fn window_is_distinct(s: &[u8], lo: usize, hi: usize) -> (r: bool)
    requires
        lo <= hi <= s@.len(),
    ensures
        r == distinct_range(s@, lo as int, hi as int),
{
    let mut i: usize = lo;
    while i < hi
        invariant
            lo <= i <= hi <= s@.len(),
            forall|a: int, b: int| lo <= a < b < hi && a < i ==> s@[a] != s@[b],
        decreases hi - i,
    {
        let mut j: usize = i + 1;
        while j < hi
            invariant
                lo <= i < j <= hi <= s@.len(),
                forall|a: int, b: int| lo <= a < b < hi && a < i ==> s@[a] != s@[b],
                forall|b: int| i < b < j ==> s@[i as int] != s@[b],
            decreases hi - j,
        {
            if s[i] == s[j] {
                assert(!distinct_range(s@, lo as int, hi as int));
                return false;
            }
            j += 1;
        }
        i += 1;
    }
    true
}

/// Scans for the first window of `marker_length` pairwise-distinct
/// bytes and returns the index one past its end; `NotFound` when no
/// such window exists before the end of the input.
pub fn search_packet_start(input: &[u8], marker_length: usize) -> (r: Result<
    usize,
    SolveError,
>)
    requires
        marker_length >= 1,
    ensures
        match r {
            Ok(p) => marker_length <= p <= input@.len() && distinct_range(
                input@,
                p - marker_length,
                p as int,
            ) && forall|q: int|
                marker_length <= q < p ==> !(#[trigger] distinct_range(
                    input@,
                    q - marker_length,
                    q,
                )),
            Err(e) => e == SolveError::NotFound && forall|q: int|
                marker_length <= q <= input@.len() ==> !(#[trigger] distinct_range(
                    input@,
                    q - marker_length,
                    q,
                )),
        },
{
    if input.len() < marker_length {
        return Err(SolveError::NotFound);
    }
    let mut i: usize = 0;
    while i <= input.len() - marker_length
        invariant
            1 <= marker_length <= input@.len(),
            0 <= i <= input@.len() - marker_length + 1,
            forall|q: int|
                marker_length <= q < i + marker_length ==> !(#[trigger] distinct_range(
                    input@,
                    q - marker_length,
                    q,
                )),
        decreases input@.len() - i,
    {
        if window_is_distinct(input, i, i + marker_length) {
            return Ok(i + marker_length);
        }
        i += 1;
    }
    Err(SolveError::NotFound)
}

} // verus!
