//! Shared text-parsing utilities: line splitting, whitespace tokenizing
//! and decimal number parsing, all over byte sequences.

use vstd::prelude::*;

verus! {

/// Splits `s` at every occurrence of `sep`; there is always exactly one
/// more segment than there are separators.
pub open spec fn split_on(s: Seq<u8>, sep: u8) -> Seq<Seq<u8>>
    decreases s.len(),
{
    if s.len() == 0 {
        seq![Seq::<u8>::empty()]
    } else if s.last() == sep {
        split_on(s.drop_last(), sep).push(Seq::<u8>::empty())
    } else {
        let r = split_on(s.drop_last(), sep);
        r.update(r.len() - 1, r.last().push(s.last()))
    }
}

pub proof fn lemma_split_on_len(s: Seq<u8>, sep: u8)
    ensures
        1 <= split_on(s, sep).len() <= s.len() + 1,
    decreases s.len(),
{
    if s.len() > 0 {
        lemma_split_on_len(s.drop_last(), sep);
    }
}

/// The lines of a text: segments between newline bytes, with a single
/// trailing empty segment (from a final newline) dropped.
pub open spec fn lines_of(s: Seq<u8>) -> Seq<Seq<u8>> {
    let parts = split_on(s, 10u8);
    if parts.last().len() == 0 {
        parts.drop_last()
    } else {
        parts
    }
}

pub proof fn lemma_lines_len(s: Seq<u8>)
    ensures
        lines_of(s).len() <= s.len() + 1,
{
    lemma_split_on_len(s, 10u8);
}

/// Splits a byte slice at every occurrence of `sep`.
pub fn split_byte(s: &[u8], sep: u8) -> (r: Vec<Vec<u8>>)
    ensures
        r.deep_view() == split_on(s@, sep),
        r@.len() >= 1,
{
    let mut done: Vec<Vec<u8>> = Vec::new();
    let mut cur: Vec<u8> = Vec::new();
    let mut i: usize = 0;
    while i < s.len()
        invariant
            0 <= i <= s@.len(),
            done.deep_view().push(cur@) =~~= split_on(s@.take(i as int), sep),
        decreases s@.len() - i,
    {
        let ghost pre = done.deep_view().push(cur@);
        let c = s[i];
        if c == sep {
            done.push(cur);
            cur = Vec::new();
        } else {
            cur.push(c);
        }
        i += 1;
        proof {
            let t = s@.take(i as int);
            assert(t.drop_last() =~= s@.take(i as int - 1));
            assert(t.last() == s@[i as int - 1]);
            if c == sep {
                assert(done.deep_view().push(cur@) =~~= pre.push(Seq::<u8>::empty()));
            } else {
                lemma_split_on_len(t.drop_last(), sep);
                assert(done.deep_view().push(cur@) =~~= pre.update(
                    pre.len() - 1,
                    pre.last().push(c),
                ));
            }
        }
    }
    proof {
        assert(s@.take(s@.len() as int) =~= s@);
    }
    done.push(cur);
    proof {
        assert(done.deep_view() =~~= split_on(s@, sep));
    }
    done
}

/// Splits a byte slice into its lines.
pub fn split_lines(s: &[u8]) -> (r: Vec<Vec<u8>>)
    ensures
        r.deep_view() == lines_of(s@),
{
    let mut done = split_byte(s, 10u8);
    let empty_last = done[done.len() - 1].len() == 0;
    if empty_last {
        done.pop();
        proof {
            assert(done.deep_view() =~~= lines_of(s@));
        }
    } else {
        proof {
            assert(done.deep_view() =~~= lines_of(s@));
        }
    }
    done
}

/// The summed length of a sequence of segments.
pub open spec fn total_len(ss: Seq<Seq<u8>>) -> int
    decreases ss.len(),
{
    if ss.len() == 0 {
        0
    } else {
        total_len(ss.drop_last()) + ss.last().len()
    }
}

pub proof fn lemma_total_len_take(ss: Seq<Seq<u8>>, i: int)
    requires
        0 <= i <= ss.len(),
    ensures
        0 <= total_len(ss.take(i)) <= total_len(ss),
    decreases ss.len() - i,
{
    if i == ss.len() {
        assert(ss.take(i) =~= ss);
        lemma_total_len_nonneg(ss);
    } else {
        lemma_total_len_take(ss, i + 1);
        assert(ss.take(i + 1).drop_last() =~= ss.take(i));
        lemma_total_len_nonneg(ss.take(i));
    }
}

pub proof fn lemma_total_len_nonneg(ss: Seq<Seq<u8>>)
    ensures
        total_len(ss) >= 0,
    decreases ss.len(),
{
    if ss.len() > 0 {
        lemma_total_len_nonneg(ss.drop_last());
    }
}

proof fn lemma_split_on_total_len(s: Seq<u8>, sep: u8)
    ensures
        total_len(split_on(s, sep)) <= s.len(),
    decreases s.len(),
{
    if s.len() == 0 {
        let r = split_on(s, sep);
        assert(r == seq![Seq::<u8>::empty()]);
        assert(r.drop_last() =~= Seq::<Seq<u8>>::empty());
        assert(r.last().len() == 0);
        assert(total_len(Seq::<Seq<u8>>::empty()) == 0);
        assert(total_len(r) == 0);
    } else {
        lemma_split_on_total_len(s.drop_last(), sep);
        let q = split_on(s.drop_last(), sep);
        lemma_split_on_len(s.drop_last(), sep);
        if s.last() == sep {
            assert(split_on(s, sep).drop_last() =~= q);
        } else {
            let r = split_on(s, sep);
            assert(r.drop_last() =~= q.drop_last());
            assert(r.last() == q.last().push(s.last()));
        }
    }
}

/// The lines of a text together hold no more bytes than the text.
pub proof fn lemma_lines_total_len(s: Seq<u8>)
    ensures
        total_len(lines_of(s)) <= s.len(),
{
    lemma_split_on_total_len(s, 10u8);
    lemma_split_on_len(s, 10u8);
    let parts = split_on(s, 10u8);
    if parts.last().len() == 0 {
        assert(total_len(parts) == total_len(parts.drop_last()));
    }
}

/// Indexing the deep view of a vector of byte vectors is indexing the
/// vector and taking the element's view.
pub proof fn lemma_deep_view_index(v: &Vec<Vec<u8>>, i: int)
    requires
        0 <= i < v@.len(),
    ensures
        v.deep_view()[i] == v@[i]@,
{
    assert(v@[i].deep_view() =~= v@[i]@);
}

pub open spec fn is_digit(b: u8) -> bool {
    48 <= b <= 57
}

pub open spec fn all_digits(s: Seq<u8>) -> bool {
    forall|i: int| 0 <= i < s.len() ==> is_digit(#[trigger] s[i])
}

/// The number denoted by a sequence of decimal digit bytes.
pub open spec fn num_of(s: Seq<u8>) -> int
    decreases s.len(),
{
    if s.len() == 0 {
        0
    } else {
        num_of(s.drop_last()) * 10 + (s.last() - 48)
    }
}

/// A byte sequence is a well-formed decimal number within `bound` iff it
/// is a nonempty run of digits whose value does not exceed `bound`.
pub open spec fn parses_to(s: Seq<u8>, bound: int) -> bool {
    s.len() > 0 && all_digits(s) && num_of(s) <= bound
}

pub proof fn lemma_num_of_monotone(s: Seq<u8>, i: int)
    requires
        all_digits(s),
        0 <= i <= s.len(),
    ensures
        0 <= num_of(s.take(i)) <= num_of(s),
    decreases s.len() - i,
{
    if i == s.len() {
        assert(s.take(i) =~= s);
        lemma_num_of_nonneg(s);
    } else {
        lemma_num_of_monotone(s, i + 1);
        assert(s.take(i + 1).drop_last() =~= s.take(i));
        assert(s.take(i + 1).last() == s[i]);
        lemma_num_of_nonneg(s.take(i));
    }
}

pub proof fn lemma_num_of_nonneg(s: Seq<u8>)
    requires
        all_digits(s),
    ensures
        num_of(s) >= 0,
    decreases s.len(),
{
    if s.len() > 0 {
        assert(all_digits(s.drop_last())) by {
            assert(forall|i: int|
                0 <= i < s.len() - 1 ==> is_digit(#[trigger] s.drop_last()[i]));
        }
        lemma_num_of_nonneg(s.drop_last());
    }
}

/// Parses a nonempty run of decimal digits as a `u32`; `None` on an
/// empty slice, a non-digit byte, or a value above `u32::MAX`.
pub fn parse_u32(s: &[u8]) -> (r: Option<u32>)
    ensures
        parses_to(s@, u32::MAX as int) ==> r == Some(num_of(s@) as u32),
        !parses_to(s@, u32::MAX as int) ==> r is None,
{
    if s.len() == 0 {
        return None;
    }
    let mut val: u64 = 0;
    let mut i: usize = 0;
    while i < s.len()
        invariant
            0 <= i <= s@.len(),
            s@.len() > 0,
            all_digits(s@.take(i as int)),
            val == num_of(s@.take(i as int)),
            val <= u32::MAX,
        decreases s@.len() - i,
    {
        let c = s[i];
        proof {
            assert(s@.take(i + 1).drop_last() =~= s@.take(i as int));
            assert(s@.take(i + 1).last() == s@[i as int]);
        }
        if c < 48 || c > 57 {
            return None;
        }
        val = val * 10 + ((c - 48) as u64);
        i += 1;
        if val > u32::MAX as u64 {
            proof {
                if all_digits(s@) {
                    lemma_num_of_monotone(s@, i as int);
                }
            }
            return None;
        }
    }
    proof {
        assert(s@.take(s@.len() as int) =~= s@);
    }
    Some(val as u32)
}

pub open spec fn is_space(b: u8) -> bool {
    b == 32 || b == 9 || b == 13
}

/// The whitespace-separated tokens of a byte sequence, in order.
pub open spec fn tokens_of(s: Seq<u8>) -> Seq<Seq<u8>>
    decreases s.len(),
{
    if s.len() == 0 {
        Seq::empty()
    } else if is_space(s.last()) {
        tokens_of(s.drop_last())
    } else if s.len() >= 2 && !is_space(s[s.len() - 2]) {
        let r = tokens_of(s.drop_last());
        r.update(r.len() - 1, r.last().push(s.last()))
    } else {
        tokens_of(s.drop_last()).push(seq![s.last()])
    }
}

/// Splits a byte slice into its whitespace-separated tokens.
pub fn tokenize(s: &[u8]) -> (r: Vec<Vec<u8>>)
    ensures
        r.deep_view() == tokens_of(s@),
{
    let mut done: Vec<Vec<u8>> = Vec::new();
    let mut cur: Vec<u8> = Vec::new();
    let mut i: usize = 0;
    while i < s.len()
        invariant
            0 <= i <= s@.len(),
            cur@.len() > 0 <==> (i > 0 && !is_space(s@[i as int - 1])),
            cur@.len() > 0 ==> tokens_of(s@.take(i as int)) =~~= done.deep_view().push(cur@),
            cur@.len() == 0 ==> tokens_of(s@.take(i as int)) =~~= done.deep_view(),
        decreases s@.len() - i,
    {
        let ghost pre_done = done.deep_view();
        let ghost pre_cur = cur@;
        let c = s[i];
        proof {
            assert(s@.take(i + 1).drop_last() =~= s@.take(i as int));
            assert(s@.take(i + 1).last() == s@[i as int]);
            if i > 0 {
                assert(s@.take(i + 1)[i as int - 1] == s@[i as int - 1]);
            }
        }
        if is_space_byte(c) {
            if cur.len() > 0 {
                done.push(cur);
                cur = Vec::new();
                proof {
                    assert(done.deep_view() =~~= pre_done.push(pre_cur));
                }
            }
        } else {
            cur.push(c);
            proof {
                if pre_cur.len() > 0 {
                    let t = tokens_of(s@.take(i as int));
                    assert(tokens_of(s@.take(i + 1)) =~~= t.update(
                        t.len() - 1,
                        t.last().push(c),
                    ));
                    assert(done.deep_view().push(cur@) =~~= t.update(
                        t.len() - 1,
                        t.last().push(c),
                    ));
                } else {
                    assert(tokens_of(s@.take(i + 1)) =~~= tokens_of(
                        s@.take(i as int),
                    ).push(seq![c]));
                }
            }
        }
        i += 1;
    }
    proof {
        assert(s@.take(s@.len() as int) =~= s@);
    }
    if cur.len() > 0 {
        done.push(cur);
        proof {
            assert(done.deep_view() =~~= tokens_of(s@));
        }
    } else {
        proof {
            assert(done.deep_view() =~~= tokens_of(s@));
        }
    }
    done
}

/// Tests one byte for whitespace (space, tab or carriage return).
pub fn is_space_byte(b: u8) -> (r: bool)
    ensures
        r == is_space(b),
{
    b == 32 || b == 9 || b == 13
}

} // verus!

