//! Repeated-element detection over strings of item letters: characters
//! common to the two halves of a line, or to the three lines of a
//! group, scored by a fixed per-letter priority.

use vstd::prelude::*;
use vstd::slice::slice_subrange;

use crate::SolveError;
use crate::text::lines_of;
use crate::text::split_lines;
use crate::text::total_len;

verus! {

pub open spec fn is_lower(b: u8) -> bool {
    97 <= b <= 122
}

pub open spec fn is_upper(b: u8) -> bool {
    65 <= b <= 90
}

pub open spec fn is_letter(b: u8) -> bool {
    is_lower(b) || is_upper(b)
}

/// The priority of an item letter: `a`..`z` score 1..26, `A`..`Z`
/// score 27..52.
pub open spec fn priority_of(b: u8) -> int {
    if is_lower(b) {
        b - 96
    } else {
        b - 38
    }
}

/// Scores one item letter; `Malformed` on any byte that is not a
/// letter.
pub fn priority(c: u8) -> (r: Result<u8, SolveError>)
    ensures
        match r {
            Ok(p) => is_letter(c) && p as int == priority_of(c) && 1 <= p <= 52,
            Err(e) => e == SolveError::Malformed && !is_letter(c),
        },
{
    if 97 <= c && c <= 122 {
        Ok(c - 96)
    } else if 65 <= c && c <= 90 {
        Ok(c - 38)
    } else {
        Err(SolveError::Malformed)
    }
}

/// Splits a slice into its two halves; `Malformed` on odd length.
pub fn split_half(s: &[u8]) -> (r: Result<(&[u8], &[u8]), SolveError>)
    ensures
        match r {
            Ok(p) => s@.len() % 2 == 0 && p.0@ == s@.take(s@.len() as int / 2) && p.1@
                == s@.skip(s@.len() as int / 2),
            Err(e) => e == SolveError::Malformed && s@.len() % 2 == 1,
        },
{
    if s.len() % 2 == 1 {
        return Err(SolveError::Malformed);
    }
    let mid = s.len() / 2;
    let left = slice_subrange(s, 0, mid);
    let right = slice_subrange(s, mid, s.len());
    proof {
        assert(left@ =~= s@.take(s@.len() as int / 2));
        assert(right@ =~= s@.skip(s@.len() as int / 2));
    }
    Ok((left, right))
}

/// Looks for one byte in a slice.
pub fn contains_byte(s: &[u8], b: u8) -> (r: bool)
    ensures
        r == s@.contains(b),
{
    let mut i: usize = 0;
    while i < s.len()
        invariant
            0 <= i <= s@.len(),
            forall|k: int| 0 <= k < i ==> s@[k] != b,
        decreases s@.len() - i,
    {
        if s[i] == b {
            return true;
        }
        i += 1;
    }
    false
}

/// Walks `right` in order, collecting each byte that occurs in `left`
/// and is not collected yet.
pub open spec fn common_rec(left: Seq<u8>, right: Seq<u8>, acc: Seq<u8>) -> Seq<u8>
    decreases right.len(),
{
    if right.len() == 0 {
        acc
    } else {
        let c = right[0];
        if left.contains(c) && !acc.contains(c) {
            common_rec(left, right.skip(1), acc.push(c))
        } else {
            common_rec(left, right.skip(1), acc)
        }
    }
}

/// The bytes common to the two halves of `s`, each once, in the order
/// of their first occurrence in the second half.
pub open spec fn repeats_of(s: Seq<u8>) -> Seq<u8> {
    common_rec(s.take(s.len() as int / 2), s.skip(s.len() as int / 2), Seq::empty())
}

proof fn lemma_common_rec_props(left: Seq<u8>, right: Seq<u8>, acc: Seq<u8>)
    requires
        acc.no_duplicates(),
    ensures
        common_rec(left, right, acc).no_duplicates(),
        forall|x: u8| #[trigger] common_rec(left, right, acc).contains(x) <==> (acc.contains(x)
            || (left.contains(x) && right.contains(x))),
        common_rec(left, right, acc).len() <= acc.len() + right.len(),
    decreases right.len(),
{
    if right.len() > 0 {
        let c = right[0];
        assert forall|x: u8| right.contains(x) == (x == c || right.skip(1).contains(x)) by {
            if right.contains(x) {
                let i = choose|i: int| 0 <= i < right.len() && right[i] == x;
                if i > 0 {
                    assert(right.skip(1)[i - 1] == x);
                }
            }
            if right.skip(1).contains(x) {
                let i = choose|i: int| 0 <= i < right.skip(1).len() && right.skip(1)[i] == x;
                assert(right[i + 1] == x);
            }
        }
        if left.contains(c) && !acc.contains(c) {
            assert forall|x: u8| acc.push(c).contains(x) == (acc.contains(x) || x == c) by {
                if acc.push(c).contains(x) {
                    let i = choose|i: int| 0 <= i < acc.push(c).len() && acc.push(c)[i] == x;
                    if i < acc.len() {
                        assert(acc[i] == x);
                    }
                }
                if acc.contains(x) {
                    let i = choose|i: int| 0 <= i < acc.len() && acc[i] == x;
                    assert(acc.push(c)[i] == x);
                }
                assert(acc.push(c)[acc.len() as int] == c);
            }
            assert(acc.push(c).no_duplicates());
            lemma_common_rec_props(left, right.skip(1), acc.push(c));
        } else {
            lemma_common_rec_props(left, right.skip(1), acc);
        }
    }
}

/// Collects the bytes common to the two halves of `s`: each exactly
/// once, ordered by first occurrence in the second half.
pub fn get_repeats(s: &[u8]) -> (r: Result<Vec<u8>, SolveError>)
    ensures
        match r {
            Ok(v) => s@.len() % 2 == 0 && v@ == repeats_of(s@) && v@.no_duplicates() && (forall|
                x: u8,
            | #[trigger]
                v@.contains(x) <==> (s@.take(s@.len() as int / 2).contains(x) && s@.skip(
                    s@.len() as int / 2,
                ).contains(x))),
            Err(e) => e == SolveError::Malformed && s@.len() % 2 == 1,
        },
{
    let halves = split_half(s);
    match halves {
        Err(e) => Err(e),
        Ok((left, right)) => {
            let mut out: Vec<u8> = Vec::new();
            let mut j: usize = 0;
            proof {
                assert(right@.skip(0) =~= right@);
            }
            while j < right.len()
                invariant
                    0 <= j <= right@.len(),
                    left@ == s@.take(s@.len() as int / 2),
                    right@ == s@.skip(s@.len() as int / 2),
                    common_rec(left@, right@.skip(j as int), out@) == repeats_of(s@),
                decreases right@.len() - j,
            {
                proof {
                    assert(right@.skip(j as int).skip(1) =~= right@.skip(j + 1));
                    assert(right@.skip(j as int)[0] == right@[j as int]);
                }
                let c = right[j];
                if contains_byte(left, c) && !contains_byte(out.as_slice(), c) {
                    out.push(c);
                }
                j += 1;
            }
            proof {
                assert(right@.skip(right@.len() as int) =~= Seq::<u8>::empty());
                lemma_common_rec_props(left@, right@, Seq::empty());
            }
            Ok(out)
        },
    }
}

/// The per-line score: the priorities of the bytes, summed; `None` on
/// any byte that is not a letter.
pub open spec fn prio_sum(cs: Seq<u8>) -> Option<int>
    decreases cs.len(),
{
    if cs.len() == 0 {
        Some(0)
    } else {
        match prio_sum(cs.drop_last()) {
            Some(t) => if is_letter(cs.last()) {
                Some(t + priority_of(cs.last()))
            } else {
                None
            },
            None => None,
        }
    }
}

proof fn lemma_prio_sum_bound(cs: Seq<u8>)
    requires
        prio_sum(cs) is Some,
    ensures
        0 <= prio_sum(cs)->Some_0 <= 52 * cs.len(),
    decreases cs.len(),
{
    if cs.len() > 0 {
        lemma_prio_sum_bound(cs.drop_last());
    }
}

proof fn lemma_prio_sum_none_sticks(cs: Seq<u8>, i: int)
    requires
        0 <= i <= cs.len(),
        prio_sum(cs.take(i)) is None,
    ensures
        prio_sum(cs) is None,
    decreases cs.len() - i,
{
    if i < cs.len() {
        assert(cs.take(i + 1).drop_last() =~= cs.take(i));
        lemma_prio_sum_none_sticks(cs, i + 1);
    } else {
        assert(cs.take(i) =~= cs);
    }
}

/// The value of one line: the priorities of its half-to-half repeats,
/// summed; `None` on an odd-length line or a non-letter repeat.
pub open spec fn line_value(line: Seq<u8>) -> Option<int> {
    if line.len() % 2 == 1 {
        None
    } else {
        prio_sum(repeats_of(line))
    }
}

proof fn lemma_line_value_bound(line: Seq<u8>)
    requires
        line_value(line) is Some,
    ensures
        0 <= line_value(line)->Some_0 <= 26 * line.len(),
{
    let reps = repeats_of(line);
    lemma_common_rec_props(
        line.take(line.len() as int / 2),
        line.skip(line.len() as int / 2),
        Seq::empty(),
    );
    lemma_prio_sum_bound(reps);
}

/// The total of the line values; `None` as soon as any line fails.
pub open spec fn total_priorities(lines: Seq<Seq<u8>>) -> Option<int>
    decreases lines.len(),
{
    if lines.len() == 0 {
        Some(0)
    } else {
        match (total_priorities(lines.drop_last()), line_value(lines.last())) {
            (Some(t), Some(v)) => Some(t + v),
            _ => None,
        }
    }
}

proof fn lemma_total_none_sticks(lines: Seq<Seq<u8>>, i: int)
    requires
        0 <= i <= lines.len(),
        total_priorities(lines.take(i)) is None,
    ensures
        total_priorities(lines) is None,
    decreases lines.len() - i,
{
    if i < lines.len() {
        assert(lines.take(i + 1).drop_last() =~= lines.take(i));
        lemma_total_none_sticks(lines, i + 1);
    } else {
        assert(lines.take(i) =~= lines);
    }
}

/// Sums the priorities of every line's half-to-half repeats;
/// `Malformed` on an odd-length line or a non-letter repeat.
pub fn part_1(input: &[u8]) -> (r: Result<u64, SolveError>)
    requires
        input@.len() < 0x0100_0000_0000_0000,
    ensures
        match r {
            Ok(n) => total_priorities(lines_of(input@)) == Some(n as int),
            Err(e) => e == SolveError::Malformed && total_priorities(lines_of(input@))
                is None,
        },
{
    let lines = split_lines(input);
    let ghost lseq = lines_of(input@);
    proof {
        crate::text::lemma_lines_total_len(input@);
        crate::text::lemma_total_len_take(lseq, 0);
    }
    let mut total: u64 = 0;
    let mut i: usize = 0;
    while i < lines.len()
        invariant
            0 <= i <= lseq.len(),
            lines.deep_view() == lseq,
            lines@.len() == lseq.len(),
            total_len(lseq) <= input@.len(),
            total <= 26 * total_len(lseq.take(i as int)),
            total_len(lseq.take(i as int)) <= total_len(lseq),
            total_priorities(lseq.take(i as int)) == Some(total as int),
        decreases lseq.len() - i,
    {
        proof {
            assert(lseq.take(i + 1).drop_last() =~= lseq.take(i as int));
            crate::text::lemma_deep_view_index(&lines, i as int);
            crate::text::lemma_total_len_take(lseq, i + 1);
        }
        let line = &lines[i];
        match get_repeats(line.as_slice()) {
            Err(_) => {
                proof {
                    lemma_total_none_sticks(lseq, i + 1);
                }
                return Err(SolveError::Malformed);
            },
            Ok(reps) => {
                let ghost rseq = repeats_of(lseq[i as int]);
                proof {
                    lemma_common_rec_props(
                        lseq[i as int].take(lseq[i as int].len() as int / 2),
                        lseq[i as int].skip(lseq[i as int].len() as int / 2),
                        Seq::empty(),
                    );
                    assert(lseq[i as int].len() <= total_len(lseq.take(i + 1)));
                    assert(rseq.take(0) =~= Seq::<u8>::empty());
                }
                let mut line_total: u64 = 0;
                let mut j: usize = 0;
                while j < reps.len()
                    invariant
                        0 <= j <= rseq.len(),
                        reps@ == rseq,
                        rseq.len() <= input@.len(),
                        input@.len() < 0x0100_0000_0000_0000,
                        prio_sum(rseq.take(j as int)) == Some(line_total as int),
                        line_total <= 52 * j,
                    decreases rseq.len() - j,
                {
                    proof {
                        assert(rseq.take(j + 1).drop_last() =~= rseq.take(j as int));
                    }
                    match priority(reps[j]) {
                        Err(_) => {
                            proof {
                                lemma_prio_sum_none_sticks(rseq, j + 1);
                                lemma_total_none_sticks(lseq, i + 1);
                            }
                            return Err(SolveError::Malformed);
                        },
                        Ok(p) => {
                            line_total = line_total + p as u64;
                        },
                    }
                    j += 1;
                }
                proof {
                    assert(rseq.take(rseq.len() as int) =~= rseq);
                    lemma_line_value_bound(lseq[i as int]);
                    lemma_common_rec_props(
                        lseq[i as int].take(lseq[i as int].len() as int / 2),
                        lseq[i as int].skip(lseq[i as int].len() as int / 2),
                        Seq::empty(),
                    );
                }
                total = total + line_total;
            },
        }
        i += 1;
    }
    proof {
        assert(lseq.take(lseq.len() as int) =~= lseq);
    }
    Ok(total)
}

/// Consecutive groups of three lines.
pub open spec fn chunks3_of(lines: Seq<Seq<u8>>) -> Seq<Seq<Seq<u8>>>
    decreases lines.len(),
{
    if lines.len() < 3 {
        Seq::empty()
    } else {
        seq![lines.take(3)] + chunks3_of(lines.skip(3))
    }
}

/// Groups the input lines three by three; `Malformed` unless the line
/// count is a multiple of three.
pub fn chunks_of_3(input: &[u8]) -> (r: Result<Vec<Vec<Vec<u8>>>, SolveError>)
    ensures
        match r {
            Ok(ch) => lines_of(input@).len() % 3 == 0 && ch.deep_view() == chunks3_of(
                lines_of(input@),
            ),
            Err(e) => e == SolveError::Malformed && lines_of(input@).len() % 3 != 0,
        },
{
    let lines = split_lines(input);
    let ghost lseq = lines_of(input@);
    if lines.len() % 3 != 0 {
        return Err(SolveError::Malformed);
    }
    let mut done: Vec<Vec<Vec<u8>>> = Vec::new();
    let mut i: usize = 0;
    proof {
        assert(lseq.skip(0) =~= lseq);
    }
    while i < lines.len()
        invariant
            0 <= i <= lseq.len(),
            i % 3 == 0,
            lseq.len() % 3 == 0,
            lines.deep_view() == lseq,
            lines@.len() == lseq.len(),
            done.deep_view() + chunks3_of(lseq.skip(i as int)) =~~= chunks3_of(lseq),
        decreases lseq.len() - i,
    {
        let ghost pre = done.deep_view();
        proof {
            crate::text::lemma_deep_view_index(&lines, i as int);
            crate::text::lemma_deep_view_index(&lines, i + 1);
            crate::text::lemma_deep_view_index(&lines, i + 2);
        }
        let mut chunk: Vec<Vec<u8>> = Vec::new();
        chunk.push(lines[i].clone());
        chunk.push(lines[i + 1].clone());
        chunk.push(lines[i + 2].clone());
        done.push(chunk);
        proof {
            assert(lseq.skip(i as int).take(3) =~= lseq.subrange(i as int, i + 3));
            assert(lseq.skip(i as int).skip(3) =~= lseq.skip(i + 3));
            assert(done.deep_view() =~~= pre.push(lseq.subrange(i as int, i + 3)));
            assert(done.deep_view() + chunks3_of(lseq.skip(i + 3)) =~~= chunks3_of(lseq));
        }
        i += 3;
    }
    proof {
        assert(lseq.skip(lseq.len() as int) =~= Seq::<Seq<u8>>::empty());
        assert(done.deep_view() =~~= chunks3_of(lseq));
    }
    Ok(done)
}

/// The badge of a three-line group: scanning the first line from its
/// end, the first byte found in both other lines.
pub open spec fn badge_rec(a: Seq<u8>, b: Seq<u8>, c: Seq<u8>) -> Option<u8>
    decreases a.len(),
{
    if a.len() == 0 {
        None
    } else if b.contains(a.last()) && c.contains(a.last()) {
        Some(a.last())
    } else {
        badge_rec(a.drop_last(), b, c)
    }
}

proof fn lemma_badge_rec_semantics(a: Seq<u8>, b: Seq<u8>, c: Seq<u8>)
    ensures
        badge_rec(a, b, c) matches Some(x) ==> a.contains(x) && b.contains(x) && c.contains(x),
        badge_rec(a, b, c) is None ==> forall|x: u8|
            !(#[trigger] a.contains(x) && b.contains(x) && c.contains(x)),
    decreases a.len(),
{
    if a.len() > 0 {
        lemma_badge_rec_semantics(a.drop_last(), b, c);
        if badge_rec(a, b, c) is Some {
            let x = badge_rec(a, b, c)->Some_0;
            if !(b.contains(a.last()) && c.contains(a.last())) {
                assert(a.drop_last().contains(x));
                let i = choose|i: int| 0 <= i < a.len() - 1 && a.drop_last()[i] == x;
                assert(a[i] == x);
            } else {
                assert(a[a.len() - 1] == x);
            }
        } else {
            assert forall|x: u8| !(#[trigger] a.contains(x) && b.contains(x) && c.contains(x)) by {
                if a.contains(x) && b.contains(x) && c.contains(x) {
                    let i = choose|i: int| 0 <= i < a.len() && a[i] == x;
                    if i < a.len() - 1 {
                        assert(a.drop_last()[i] == x);
                        assert(a.drop_last().contains(x));
                    }
                }
            }
        }
    }
}

/// Finds the badge byte of a three-line group: the byte of the first
/// line, scanned from its end, that the two other lines also hold;
/// `NotFound` when the three lines share no byte.
pub fn get_badge(a: &[u8], b: &[u8], c: &[u8]) -> (r: Result<u8, SolveError>)
    ensures
        match r {
            Ok(x) => badge_rec(a@, b@, c@) == Some(x) && a@.contains(x) && b@.contains(x)
                && c@.contains(x),
            Err(e) => e == SolveError::NotFound && badge_rec(a@, b@, c@) is None && forall|x: u8|
                !(#[trigger] a@.contains(x) && b@.contains(x) && c@.contains(x)),
        },
{
    let mut i: usize = a.len();
    proof {
        assert(a@.take(a@.len() as int) =~= a@);
    }
    while i > 0
        invariant
            0 <= i <= a@.len(),
            badge_rec(a@.take(i as int), b@, c@) == badge_rec(a@, b@, c@),
        decreases i,
    {
        proof {
            assert(a@.take(i as int).drop_last() =~= a@.take(i - 1));
            assert(a@.take(i as int).last() == a@[i - 1]);
        }
        let x = a[i - 1];
        if contains_byte(b, x) && contains_byte(c, x) {
            proof {
                lemma_badge_rec_semantics(a@, b@, c@);
            }
            return Ok(x);
        }
        i -= 1;
    }
    proof {
        assert(a@.take(0) =~= Seq::<u8>::empty());
        lemma_badge_rec_semantics(a@, b@, c@);
    }
    Err(SolveError::NotFound)
}

/// The value of one group: the priority of its badge; `NotFound`
/// without a badge, `Malformed` on a non-letter badge.
pub open spec fn badge_value(a: Seq<u8>, b: Seq<u8>, c: Seq<u8>) -> Result<int, SolveError> {
    match badge_rec(a, b, c) {
        None => Err(SolveError::NotFound),
        Some(x) => if is_letter(x) {
            Ok(priority_of(x))
        } else {
            Err(SolveError::Malformed)
        },
    }
}

/// The total of the group values over lines taken three at a time,
/// with the first failing group's error.
pub open spec fn badges_total(lines: Seq<Seq<u8>>) -> Result<int, SolveError>
    decreases lines.len(),
{
    if lines.len() == 0 {
        Ok(0)
    } else if lines.len() < 3 {
        Err(SolveError::Malformed)
    } else {
        match badge_value(lines[0], lines[1], lines[2]) {
            Ok(v) => match badges_total(lines.skip(3)) {
                Ok(t) => Ok(v + t),
                Err(e) => Err(e),
            },
            Err(e) => Err(e),
        }
    }
}

/// What the badge scan of a whole input yields: `Malformed` unless
/// the line count is a multiple of three, else the summed badge
/// priorities or the first group's failure.
pub open spec fn badges_total_spec(input: Seq<u8>) -> Result<int, SolveError> {
    if lines_of(input).len() % 3 != 0 {
        Err(SolveError::Malformed)
    } else {
        badges_total(lines_of(input))
    }
}

/// Sums the badge priorities of the input's three-line groups.
pub fn part_2(input: &[u8]) -> (r: Result<u64, SolveError>)
    requires
        input@.len() < 0x0100_0000_0000_0000,
    ensures
        match r {
            Ok(n) => badges_total_spec(input@) == Ok::<int, SolveError>(n as int),
            Err(e) => badges_total_spec(input@) == Err::<int, SolveError>(e),
        },
{
    let chunks = match chunks_of_3(input) {
        Err(e) => {
            return Err(e);
        },
        Ok(ch) => ch,
    };
    let ghost lseq = lines_of(input@);
    proof {
        crate::text::lemma_lines_len(input@);
    }
    let mut total: u64 = 0;
    let mut i: usize = 0;
    proof {
        assert(lseq.skip(0) =~= lseq);
        lemma_chunks3_len(lseq);
    }
    while i < chunks.len()
        invariant
            0 <= i <= chunks@.len(),
            lseq.len() % 3 == 0,
            lseq.len() <= input@.len() + 1,
            chunks.deep_view() == chunks3_of(lseq),
            chunks@.len() * 3 <= lseq.len(),
            total <= 52 * i,
            badges_total(lseq) == match badges_total(lseq.skip(3 * i)) {
                Ok(t) => Ok::<int, SolveError>(total + t),
                Err(e) => Err::<int, SolveError>(e),
            },
            chunks3_of(lseq.skip(3 * i)).len() == chunks@.len() - i,
        decreases chunks@.len() - i,
    {
        let ghost rest = lseq.skip(3 * i);
        proof {
            assert(chunks.deep_view()[i as int] == chunks@[i as int].deep_view());
            lemma_chunks3_index(lseq, i as int);
            assert(rest.skip(3) =~= lseq.skip(3 * i + 3));
            assert(rest.len() >= 3) by {
                lemma_chunks3_len(rest);
            }
        }
        let chunk = &chunks[i];
        proof {
            assert(chunk.deep_view() =~~= rest.subrange(0, 3)) by {
                assert(chunks3_of(lseq)[i as int] == lseq.subrange(3 * i, 3 * i + 3));
                assert(lseq.subrange(3 * i, 3 * i + 3) =~= rest.subrange(0, 3));
            }
            crate::text::lemma_deep_view_index(chunk, 0);
            crate::text::lemma_deep_view_index(chunk, 1);
            crate::text::lemma_deep_view_index(chunk, 2);
            assert(rest[0] == rest.subrange(0, 3)[0]);
            assert(rest[1] == rest.subrange(0, 3)[1]);
            assert(rest[2] == rest.subrange(0, 3)[2]);
        }
        let badge = match get_badge(
            chunk[0].as_slice(),
            chunk[1].as_slice(),
            chunk[2].as_slice(),
        ) {
            Err(e) => {
                return Err(e);
            },
            Ok(x) => x,
        };
        match priority(badge) {
            Err(e) => {
                return Err(e);
            },
            Ok(p) => {
                total = total + p as u64;
            },
        }
        i += 1;
    }
    proof {
        assert(lseq.skip(3 * i) =~= lseq.skip(3 * chunks@.len() as int));
        lemma_chunks3_len(lseq);
        assert(3 * chunks@.len() == lseq.len());
        assert(lseq.skip(lseq.len() as int) =~= Seq::<Seq<u8>>::empty());
    }
    Ok(total)
}

proof fn lemma_chunks3_len(lines: Seq<Seq<u8>>)
    ensures
        lines.len() % 3 == 0 ==> chunks3_of(lines).len() * 3 == lines.len(),
        chunks3_of(lines).len() * 3 <= lines.len(),
    decreases lines.len(),
{
    if lines.len() >= 3 {
        lemma_chunks3_len(lines.skip(3));
    }
}

proof fn lemma_chunks3_index(lines: Seq<Seq<u8>>, k: int)
    requires
        0 <= k < chunks3_of(lines).len(),
    ensures
        chunks3_of(lines)[k] == lines.subrange(3 * k, 3 * k + 3),
    decreases k,
{
    lemma_chunks3_len(lines);
    if k == 0 {
        assert(lines.take(3) =~= lines.subrange(0, 3));
    } else {
        lemma_chunks3_len(lines.skip(3));
        lemma_chunks3_index(lines.skip(3), k - 1);
        assert(lines.skip(3).subrange(3 * (k - 1), 3 * (k - 1) + 3) =~= lines.subrange(
            3 * k,
            3 * k + 3,
        ));
    }
}

} // verus!
