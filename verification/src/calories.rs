//! Calorie bookkeeping: blank-line-separated groups of numbers are
//! parsed into elves, sorted by total in descending order with a
//! stable tie policy, and reduced to top-1 / top-3 sums.

use vstd::prelude::*;
use vstd::relations::*;
use vstd::seq_lib::*;

use crate::SolveError;
use crate::text::lines_of;
use crate::text::num_of;
use crate::text::parse_u32;
use crate::text::parses_to;
use crate::text::split_lines;

verus! {

/// One parsed group: the calorie counts it lists.
pub struct Elf {
    pub calories: Vec<u32>,
}

impl View for Elf {
    type V = Seq<u32>;

    open spec fn view(&self) -> Seq<u32> {
        self.calories@
    }
}

/// The sum of a sequence of calorie counts.
pub open spec fn sum(s: Seq<u32>) -> int
    decreases s.len(),
{
    if s.len() == 0 {
        0
    } else {
        sum(s.drop_last()) + s.last()
    }
}

pub proof fn lemma_sum_bound(s: Seq<u32>)
    ensures
        0 <= sum(s) <= s.len() * 0xffff_ffff,
    decreases s.len(),
{
    if s.len() > 0 {
        lemma_sum_bound(s.drop_last());
    }
}

impl Elf {
    /// Adds up this elf's calorie entries.
    pub fn total_calories(&self) -> (r: u64)
        requires
            self@.len() < 0x1_0000_0000,
        ensures
            r == sum(self@),
    {
        let mut acc: u64 = 0;
        let mut i: usize = 0;
        proof {
            assert(self@.take(0) =~= Seq::<u32>::empty());
        }
        while i < self.calories.len()
            invariant
                0 <= i <= self@.len(),
                self@.len() < 0x1_0000_0000,
                acc == sum(self@.take(i as int)),
                acc <= i * 0xffff_ffff,
            decreases self@.len() - i,
        {
            proof {
                assert(self@.take(i + 1).drop_last() =~= self@.take(i as int));
                assert(self@.take(i + 1).last() == self@[i as int]);
            }
            acc = acc + self.calories[i] as u64;
            i += 1;
        }
        proof {
            assert(self@.take(self@.len() as int) =~= self@);
        }
        acc
    }
}

/// An ended group: dropped when blank, kept as a singleton otherwise.
pub open spec fn close_group(cur: Seq<u32>) -> Seq<Seq<u32>> {
    if cur.len() == 0 {
        Seq::empty()
    } else {
        seq![cur]
    }
}

/// Walks the lines, gathering numbers into the open group `cur`; a
/// blank line ends the group; a non-numeric line fails the parse.
pub open spec fn parse_rec(lines: Seq<Seq<u8>>, cur: Seq<u32>) -> Option<Seq<Seq<u32>>>
    decreases lines.len(),
{
    if lines.len() == 0 {
        Some(close_group(cur))
    } else if lines[0].len() == 0 {
        match parse_rec(lines.skip(1), Seq::empty()) {
            Some(r) => Some(close_group(cur) + r),
            None => None,
        }
    } else if parses_to(lines[0], u32::MAX as int) {
        parse_rec(lines.skip(1), cur.push(num_of(lines[0]) as u32))
    } else {
        None
    }
}

/// The calorie groups of a text: lines grouped between blank lines,
/// blank groups dropped; `None` on any non-numeric line.
pub open spec fn parse_elves(input: Seq<u8>) -> Option<Seq<Seq<u32>>> {
    parse_rec(lines_of(input), Seq::empty())
}

/// The summed group sizes: how many numbers the groups hold together.
pub open spec fn group_len_sum(gs: Seq<Seq<u32>>) -> int
    decreases gs.len(),
{
    if gs.len() == 0 {
        0
    } else {
        group_len_sum(gs.drop_last()) + gs.last().len()
    }
}

proof fn lemma_group_len_sum_parts(gs: Seq<Seq<u32>>)
    ensures
        group_len_sum(gs) >= 0,
        forall|k: int| 0 <= k < gs.len() ==> (#[trigger] gs[k]).len() <= group_len_sum(gs),
    decreases gs.len(),
{
    if gs.len() > 0 {
        lemma_group_len_sum_parts(gs.drop_last());
        assert forall|k: int| 0 <= k < gs.len() implies (#[trigger] gs[k]).len() <= group_len_sum(
            gs,
        ) by {
            if k < gs.len() - 1 {
                assert(gs.drop_last()[k] == gs[k]);
            }
        }
    }
}

proof fn lemma_group_len_sum_add(a: Seq<Seq<u32>>, b: Seq<Seq<u32>>)
    ensures
        group_len_sum(a + b) == group_len_sum(a) + group_len_sum(b),
    decreases b.len(),
{
    if b.len() == 0 {
        assert(a + b =~= a);
    } else {
        lemma_group_len_sum_add(a, b.drop_last());
        assert((a + b).drop_last() =~= a + b.drop_last());
        assert((a + b).last() == b.last());
    }
}

/// Every parse result holds no more numbers than it had lines (plus
/// the open group).
proof fn lemma_parse_rec_size(lines: Seq<Seq<u8>>, cur: Seq<u32>)
    ensures
        parse_rec(lines, cur) is Some ==> group_len_sum(parse_rec(lines, cur)->Some_0) <= cur.len()
            + lines.len(),
    decreases lines.len(),
{
    if lines.len() == 0 {
        assert(group_len_sum(close_group(cur)) <= cur.len()) by {
            if cur.len() > 0 {
                assert(seq![cur].drop_last() =~= Seq::<Seq<u32>>::empty());
                assert(group_len_sum(Seq::<Seq<u32>>::empty()) == 0);
                assert(seq![cur].last() == cur);
            }
        }
    } else if lines[0].len() == 0 {
        lemma_parse_rec_size(lines.skip(1), Seq::empty());
        if parse_rec(lines.skip(1), Seq::empty()) is Some {
            let r = parse_rec(lines.skip(1), Seq::empty())->Some_0;
            lemma_group_len_sum_add(close_group(cur), r);
            assert(group_len_sum(close_group(cur)) <= cur.len()) by {
                if cur.len() > 0 {
                    assert(seq![cur].drop_last() =~= Seq::<Seq<u32>>::empty());
                    assert(group_len_sum(Seq::<Seq<u32>>::empty()) == 0);
                    assert(seq![cur].last() == cur);
                }
            }
        }
    } else if parses_to(lines[0], u32::MAX as int) {
        lemma_parse_rec_size(lines.skip(1), cur.push(num_of(lines[0]) as u32));
    }
}

/// The group views of a sequence of elves.
pub open spec fn views_of(es: Seq<Elf>) -> Seq<Seq<u32>> {
    es.map_values(|e: Elf| e@)
}

/// The totals of a sequence of groups.
pub open spec fn totals_of(gs: Seq<Seq<u32>>) -> Seq<int> {
    gs.map_values(|g: Seq<u32>| sum(g))
}

/// Groups arranged largest total first.
pub open spec fn sorted_desc(gs: Seq<Seq<u32>>) -> bool {
    forall|i: int, j: int| 0 <= i < j < gs.len() ==> sum(#[trigger] gs[i]) >= sum(#[trigger] gs[j])
}

/// The sum of a sequence of totals.
pub open spec fn sum_int(s: Seq<int>) -> int
    decreases s.len(),
{
    if s.len() == 0 {
        0
    } else {
        sum_int(s.drop_last()) + s.last()
    }
}

proof fn lemma_sum_int_add(a: Seq<int>, b: Seq<int>)
    ensures
        sum_int(a + b) == sum_int(a) + sum_int(b),
    decreases b.len(),
{
    if b.len() == 0 {
        assert(a + b =~= a);
    } else {
        lemma_sum_int_add(a, b.drop_last());
        assert((a + b).drop_last() =~= a + b.drop_last());
        assert((a + b).last() == b.last());
    }
}

proof fn lemma_sum_int_prefix(s: Seq<int>, i: int)
    requires
        0 <= i <= s.len(),
        forall|k: int| 0 <= k < s.len() ==> #[trigger] s[k] >= 0,
    ensures
        0 <= sum_int(s.take(i)) <= sum_int(s),
    decreases s.len() - i,
{
    if i == s.len() {
        assert(s.take(i) =~= s);
        lemma_sum_int_nonneg(s);
    } else {
        lemma_sum_int_prefix(s, i + 1);
        assert(s.take(i + 1).drop_last() =~= s.take(i));
        assert(s.take(i + 1).last() == s[i]);
        lemma_sum_int_nonneg(s.take(i));
    }
}

proof fn lemma_sum_int_nonneg(s: Seq<int>)
    requires
        forall|k: int| 0 <= k < s.len() ==> #[trigger] s[k] >= 0,
    ensures
        sum_int(s) >= 0,
    decreases s.len(),
{
    if s.len() > 0 {
        assert(forall|k: int| 0 <= k < s.len() - 1 ==> #[trigger] s.drop_last()[k] >= 0);
        lemma_sum_int_nonneg(s.drop_last());
    }
}

/// Parses the blank-line-separated calorie groups of a text.
fn parse_groups(input: &[u8]) -> (r: Result<Vec<Elf>, SolveError>)
    ensures
        match r {
            Ok(es) => parse_elves(input@) == Some(views_of(es@)),
            Err(e) => e == SolveError::Malformed && parse_elves(input@) is None,
        },
{
    let lines = split_lines(input);
    let ghost lseq = lines_of(input@);
    let mut elves: Vec<Elf> = Vec::new();
    let mut cur: Vec<u32> = Vec::new();
    let mut i: usize = 0;
    proof {
        assert(lseq.skip(0) =~= lseq);
        assert(views_of(elves@) =~= Seq::<Seq<u32>>::empty());
    }
    while i < lines.len()
        invariant
            0 <= i <= lseq.len(),
            lines.deep_view() == lseq,
            lines@.len() == lseq.len(),
            parse_elves(input@) == match parse_rec(lseq.skip(i as int), cur@) {
                Some(rest) => Some(views_of(elves@) + rest),
                None => None::<Seq<Seq<u32>>>,
            },
        decreases lseq.len() - i,
    {
        proof {
            assert(lseq.skip(i as int).skip(1) =~= lseq.skip(i + 1));
            assert(lseq.skip(i as int)[0] == lseq[i as int]);
            crate::text::lemma_deep_view_index(&lines, i as int);
        }
        let ghost pre_views = views_of(elves@);
        let ghost pre_cur = cur@;
        let line = &lines[i];
        if line.len() == 0 {
            if cur.len() > 0 {
                elves.push(Elf { calories: cur });
                cur = Vec::new();
                proof {
                    assert(views_of(elves@) =~= pre_views.push(pre_cur));
                    assert forall|rest: Seq<Seq<u32>>|
                        #[trigger] (views_of(elves@) + rest) =~= pre_views + (close_group(pre_cur)
                            + rest) by {
                        assert(close_group(pre_cur) == seq![pre_cur]);
                    }
                    assert(cur@ =~= Seq::<u32>::empty());
                    assert(parse_elves(input@) == match parse_rec(
                        lseq.skip(i + 1),
                        cur@,
                    ) {
                        Some(rest) => Some(views_of(elves@) + rest),
                        None => None::<Seq<Seq<u32>>>,
                    });
                }
            } else {
                proof {
                    assert forall|rest: Seq<Seq<u32>>|
                        #[trigger] (views_of(elves@) + rest) =~= pre_views + (close_group(pre_cur)
                            + rest) by {}
                    assert(cur@ =~= Seq::<u32>::empty());
                    assert(parse_elves(input@) == match parse_rec(
                        lseq.skip(i + 1),
                        cur@,
                    ) {
                        Some(rest) => Some(views_of(elves@) + rest),
                        None => None::<Seq<Seq<u32>>>,
                    });
                }
            }
        } else {
            match parse_u32(line.as_slice()) {
                Some(n) => {
                    cur.push(n);
                    proof {
                        assert(cur@ == pre_cur.push(n));
                        assert(parse_rec(lseq.skip(i as int), pre_cur) == parse_rec(
                            lseq.skip(i + 1),
                            cur@,
                        ));
                    }
                },
                None => {
                    return Err(SolveError::Malformed);
                },
            }
        }
        i += 1;
    }
    proof {
        assert(lseq.skip(lseq.len() as int) =~= Seq::<Seq<u8>>::empty());
    }
    if cur.len() > 0 {
        let ghost pre_views = views_of(elves@);
        let ghost pre_cur = cur@;
        elves.push(Elf { calories: cur });
        proof {
            assert(views_of(elves@) =~= pre_views.push(pre_cur));
            assert(pre_views + close_group(pre_cur) =~= views_of(elves@));
        }
    } else {
        proof {
            assert(views_of(elves@) + close_group(cur@) =~= views_of(elves@));
        }
    }
    Ok(elves)
}

/// The predicate "this group's total is `t`".
pub open spec fn has_total(t: int) -> spec_fn(Seq<u32>) -> bool {
    |g: Seq<u32>| sum(g) == t
}

proof fn lemma_filter_none(s: Seq<Seq<u32>>, t: int)
    requires
        forall|k: int| 0 <= k < s.len() ==> sum(#[trigger] s[k]) != t,
    ensures
        s.filter(has_total(t)) == Seq::<Seq<u32>>::empty(),
    decreases s.len(),
{
    reveal(Seq::filter);
    if s.len() > 0 {
        assert(forall|k: int|
            0 <= k < s.len() - 1 ==> sum(#[trigger] s.drop_last()[k]) != t);
        lemma_filter_none(s.drop_last(), t);
    }
}

proof fn lemma_views_insert(es: Seq<Elf>, p: int, e: Elf)
    requires
        0 <= p <= es.len(),
    ensures
        views_of(es.insert(p, e)) =~= views_of(es).insert(p, e@),
{
    es.insert_ensures(p, e);
    views_of(es).insert_ensures(p, e@);
}

proof fn lemma_totals_insert(gs: Seq<Seq<u32>>, p: int, g: Seq<u32>)
    requires
        0 <= p <= gs.len(),
    ensures
        totals_of(gs.insert(p, g)) =~= totals_of(gs).insert(p, sum(g)),
{
    gs.insert_ensures(p, g);
    totals_of(gs).insert_ensures(p, sum(g));
}

/// Inserting a group after every at-least-as-large total and before
/// every smaller one keeps the arrangement sorted and keeps, for each
/// total, the order of the groups holding it.
proof fn lemma_stable_insert(ov: Seq<Seq<u32>>, pv: Seq<Seq<u32>>, ev: Seq<u32>, p: int)
    requires
        0 <= p <= ov.len(),
        sorted_desc(ov),
        forall|k: int| 0 <= k < p ==> sum(#[trigger] ov[k]) >= sum(ev),
        p < ov.len() ==> sum(ov[p]) < sum(ev),
        ov.to_multiset() == pv.to_multiset(),
        totals_of(ov).to_multiset() == totals_of(pv).to_multiset(),
        sum_int(totals_of(ov)) == sum_int(totals_of(pv)),
        forall|t: int| #[trigger] ov.filter(has_total(t)) == pv.filter(has_total(t)),
    ensures
        sorted_desc(ov.insert(p, ev)),
        ov.insert(p, ev).to_multiset() == pv.push(ev).to_multiset(),
        totals_of(ov.insert(p, ev)).to_multiset() == totals_of(pv.push(ev)).to_multiset(),
        sum_int(totals_of(ov.insert(p, ev))) == sum_int(totals_of(pv.push(ev))),
        forall|t: int| #[trigger] ov.insert(p, ev).filter(has_total(t)) == pv.push(ev).filter(
            has_total(t),
        ),
{
    let nv = ov.insert(p, ev);
    let a = ov.subrange(0, p);
    let b = ov.subrange(p, ov.len() as int);
    ov.insert_ensures(p, ev);
    assert(a + b =~= ov);
    assert forall|k: int| p <= k < ov.len() implies sum(#[trigger] ov[k]) < sum(ev) by {
        if k > p {
            assert(sum(ov[p]) >= sum(ov[k]));
        }
    }

    // Sortedness by index cases around the insertion point.
    assert forall|i: int, j: int| 0 <= i < j < nv.len() implies sum(#[trigger] nv[i]) >= sum(
        #[trigger] nv[j],
    ) by {
        if j < p {
        } else if i < p && j == p {
            assert(nv[i] == ov[i]);
        } else if i < p && j > p {
            assert(nv[j] == ov[j - 1]);
        } else if i == p {
            assert(nv[j] == ov[j - 1]);
        } else {
            assert(nv[i] == ov[i - 1] && nv[j] == ov[j - 1]);
        }
    }

    // Multisets: the insertion adds exactly one occurrence of `ev`.
    broadcast use vstd::seq_lib::group_to_multiset_ensures;

    assert(nv == a.push(ev) + b);
    lemma_multiset_commutative(a.push(ev), b);
    lemma_multiset_commutative(a, b);
    assert(nv.to_multiset() =~= pv.push(ev).to_multiset());

    let ti = totals_of(ov);
    let tn = totals_of(nv);
    lemma_totals_insert(ov, p, ev);
    let ta = ti.subrange(0, p);
    let tb = ti.subrange(p, ti.len() as int);
    ti.insert_ensures(p, sum(ev));
    assert(ta + tb =~= ti);
    assert(tn == ta.push(sum(ev)) + tb);
    lemma_multiset_commutative(ta.push(sum(ev)), tb);
    lemma_multiset_commutative(ta, tb);
    assert(totals_of(pv.push(ev)) =~= totals_of(pv).push(sum(ev)));
    assert(tn.to_multiset() =~= totals_of(pv.push(ev)).to_multiset());

    // The summed totals grow by exactly the new total on both sides.
    lemma_sum_int_add(ta.push(sum(ev)), tb);
    lemma_sum_int_add(ta, tb);
    assert(ta.push(sum(ev)).drop_last() =~= ta);
    assert(sum_int(ta.push(sum(ev))) == sum_int(ta) + sum(ev));
    assert(totals_of(pv.push(ev)).drop_last() =~= totals_of(pv));
    assert(sum_int(totals_of(pv.push(ev))) == sum_int(totals_of(pv)) + sum(ev));

    // Stability: for each total, the groups holding it stay in order.
    assert forall|t: int| #[trigger] nv.filter(has_total(t)) == pv.push(ev).filter(
        has_total(t),
    ) by {
        let pred = has_total(t);
        assert(nv =~= a + (seq![ev] + b));
        Seq::filter_distributes_over_add(a, seq![ev] + b, pred);
        Seq::filter_distributes_over_add(seq![ev], b, pred);
        Seq::filter_distributes_over_add(a, b, pred);
        assert(pv.push(ev) =~= pv + seq![ev]);
        Seq::filter_distributes_over_add(pv, seq![ev], pred);
        reveal(Seq::<_>::filter);
        let single = seq![ev];
        assert(single.drop_last() =~= Seq::<Seq<u32>>::empty());
        assert(single.last() == ev);
        assert(single.drop_last().filter(pred) == single.drop_last());
        assert(single.filter(pred) == if pred(ev) {
            single.drop_last().filter(pred).push(ev)
        } else {
            single.drop_last().filter(pred)
        });
        assert(ov.filter(pred) == pv.filter(pred));
        if sum(ev) == t {
            assert(single.filter(pred) =~= single);
            assert(forall|k: int| 0 <= k < b.len() ==> sum(#[trigger] b[k]) != t);
            lemma_filter_none(b, t);
            assert(ov.filter(pred) == a.filter(pred) + b.filter(pred));
            assert(a.filter(pred) =~= ov.filter(pred));
            assert(nv.filter(pred) =~= pv.filter(pred) + seq![ev]);
            assert(pv.push(ev).filter(pred) =~= pv.filter(pred) + seq![ev]);
        } else {
            assert(single.filter(pred) =~= Seq::<Seq<u32>>::empty());
            assert(nv.filter(pred) =~= a.filter(pred) + b.filter(pred));
            assert(nv.filter(pred) =~= pv.filter(pred));
            assert(pv.push(ev).filter(pred) =~= pv.filter(pred));
        }
    }
}

/// Rearranges the elves largest total first; equal totals keep their
/// relative order, so the sort is stable.
fn sort_elves(elves: Vec<Elf>) -> (r: Vec<Elf>)
    requires
        forall|k: int| 0 <= k < elves@.len() ==> (#[trigger] elves@[k])@.len() < 0x1_0000_0000,
    ensures
        r@.len() == elves@.len(),
        sorted_desc(views_of(r@)),
        views_of(r@).to_multiset() == views_of(elves@).to_multiset(),
        totals_of(views_of(r@)).to_multiset() == totals_of(views_of(elves@)).to_multiset(),
        sum_int(totals_of(views_of(r@))) == sum_int(totals_of(views_of(elves@))),
        forall|t: int| #[trigger] views_of(r@).filter(has_total(t)) == views_of(elves@).filter(
            has_total(t),
        ),
        forall|k: int| 0 <= k < r@.len() ==> (#[trigger] r@[k])@.len() < 0x1_0000_0000,
{
    let ghost orig = elves@;
    let mut rest = elves;
    let mut out: Vec<Elf> = Vec::new();
    let ghost mut d: int = 0;
    proof {
        assert(orig.skip(0) =~= orig);
        assert(views_of(orig.take(0)) =~= Seq::<Seq<u32>>::empty());
        assert(views_of(out@) =~= Seq::<Seq<u32>>::empty());
        assert(views_of(out@) == views_of(orig.take(0)));
    }
    while rest.len() > 0
        invariant
            0 <= d <= orig.len(),
            rest@ == orig.skip(d),
            out@.len() == d,
            forall|k: int| 0 <= k < orig.len() ==> (#[trigger] orig[k])@.len() < 0x1_0000_0000,
            forall|k: int| 0 <= k < out@.len() ==> (#[trigger] out@[k])@.len() < 0x1_0000_0000,
            sorted_desc(views_of(out@)),
            views_of(out@).to_multiset() == views_of(orig.take(d)).to_multiset(),
            totals_of(views_of(out@)).to_multiset() == totals_of(views_of(orig.take(d))).to_multiset(),
            sum_int(totals_of(views_of(out@))) == sum_int(totals_of(views_of(orig.take(d)))),
            forall|t: int| #[trigger] views_of(out@).filter(has_total(t)) == views_of(
                orig.take(d),
            ).filter(has_total(t)),
        decreases rest@.len(),
    {
        proof {
            assert(rest@[0] == orig[d]);
        }
        let e = rest.remove(0);
        proof {
            assert(rest@ =~= orig.skip(d + 1));
        }
        let te = e.total_calories();
        let ghost ov = views_of(out@);
        let ghost ev = e@;
        let mut p: usize = 0;
        while p < out.len() && out[p].total_calories() >= te
            invariant
                0 <= p <= out@.len(),
                views_of(out@) == ov,
                te == sum(ev),
                forall|k: int| 0 <= k < out@.len() ==> (#[trigger] out@[k])@.len()
                    < 0x1_0000_0000,
                forall|k: int| 0 <= k < p ==> sum(#[trigger] ov[k]) >= sum(ev),
            decreases out@.len() - p,
        {
            p += 1;
        }
        let ghost pv = views_of(orig.take(d));
        let ghost oes = out@;
        out.insert(p, e);
        proof {
            lemma_views_insert(oes, p as int, e);
            assert(views_of(out@) =~= ov.insert(p as int, ev));
            assert(orig.take(d + 1).drop_last() =~= orig.take(d));
            assert(orig.take(d + 1) =~= orig.take(d).push(orig[d]));
            assert(views_of(orig.take(d + 1)) =~= pv.push(ev));
            lemma_stable_insert(ov, pv, ev, p as int);
            d = d + 1;
        }
    }
    proof {
        assert(orig.take(orig.len() as int) =~= orig);
    }
    out
}

/// Parses the calorie groups and arranges them largest total first;
/// the sort is stable: groups with equal totals keep their input
/// order, stated through the per-total filters.
pub fn fattest_elves(input: &[u8]) -> (r: Result<Vec<Elf>, SolveError>)
    requires
        input@.len() < 0xffff_fffe,
    ensures
        match r {
            Ok(elves) => {
                &&& parse_elves(input@) is Some
                &&& sorted_desc(views_of(elves@))
                &&& views_of(elves@).to_multiset() == (parse_elves(input@)->Some_0).to_multiset()
                &&& totals_of(views_of(elves@)).to_multiset() == totals_of(
                    parse_elves(input@)->Some_0,
                ).to_multiset()
                &&& sum_int(totals_of(views_of(elves@))) == sum_int(
                    totals_of(parse_elves(input@)->Some_0),
                )
                &&& forall|t: int|
                    #[trigger] views_of(elves@).filter(has_total(t)) == (parse_elves(
                        input@,
                    )->Some_0).filter(has_total(t))
                &&& forall|k: int|
                    0 <= k < elves@.len() ==> (#[trigger] elves@[k])@.len() < 0x1_0000_0000
            },
            Err(e) => e == SolveError::Malformed && parse_elves(input@) is None,
        },
{
    let parsed = match parse_groups(input) {
        Err(e) => {
            return Err(e);
        },
        Ok(es) => es,
    };
    proof {
        crate::text::lemma_lines_len(input@);
        lemma_parse_rec_size(lines_of(input@), Seq::empty());
        lemma_group_len_sum_parts(views_of(parsed@));
        assert forall|k: int| 0 <= k < parsed@.len() implies (#[trigger] parsed@[k])@.len()
            < 0x1_0000_0000 by {
            assert(views_of(parsed@)[k] == parsed@[k]@);
        }
    }
    let sorted = sort_elves(parsed);
    Ok(sorted)
}

/// "Not smaller" on totals: the descending order's comparison.
pub open spec fn ge_int() -> spec_fn(int, int) -> bool {
    |x: int, y: int| y <= x
}

/// The groups' totals arranged largest first.
pub open spec fn totals_desc(gs: Seq<Seq<u32>>) -> Seq<int> {
    totals_of(gs).sort_by(ge_int())
}

/// The sum of the `k` largest totals (all of them when fewer exist).
pub open spec fn top_total(gs: Seq<Seq<u32>>, k: int) -> int {
    let td = totals_desc(gs);
    sum_int(td.take(if k <= td.len() { k } else { td.len() as int }))
}

proof fn lemma_ge_int_total_ordering()
    ensures
        total_ordering(ge_int()),
{
    let leq = ge_int();
    assert forall|x: int| #[trigger] leq(x, x) by {}
    assert forall|x: int, y: int| #[trigger] leq(x, y) && #[trigger] leq(y, x) implies x == y by {}
    assert(reflexive(leq));
    assert(antisymmetric(leq));
    assert(transitive(leq));
    assert(strongly_connected(leq));
}

/// Law: the descending arrangement of the totals is determined by the
/// multiset of totals alone, so the top-1 and top-3 selection sums do
/// not depend on the order in which equal-total groups appear.
pub proof fn lemma_top_total_order_independent(a: Seq<Seq<u32>>, b: Seq<Seq<u32>>, k: int)
    requires
        totals_of(a).to_multiset() == totals_of(b).to_multiset(),
    ensures
        totals_desc(a) == totals_desc(b),
        top_total(a, k) == top_total(b, k),
{
    lemma_ge_int_total_ordering();
    totals_of(a).lemma_sort_by_ensures(ge_int());
    totals_of(b).lemma_sort_by_ensures(ge_int());
    lemma_sorted_unique(totals_desc(a), totals_desc(b), ge_int());
    assert(totals_desc(a) =~= totals_desc(b));
}

/// Parses the calorie groups and sums the `k` largest totals (all of
/// them when fewer than `k` groups exist).
pub fn top_k_total(input: &[u8], k: usize) -> (r: Result<u64, SolveError>)
    requires
        input@.len() < 0xffff_fffe,
    ensures
        match r {
            Ok(n) => parse_elves(input@) is Some && n as int == top_total(
                parse_elves(input@)->Some_0,
                k as int,
            ),
            Err(e) => e == SolveError::Malformed && parse_elves(input@) is None,
        },
{
    let elves = match fattest_elves(input) {
        Err(e) => {
            return Err(e);
        },
        Ok(v) => v,
    };
    let ghost parsed = parse_elves(input@)->Some_0;
    let ghost tv = totals_of(views_of(elves@));
    proof {
        crate::text::lemma_lines_len(input@);
        lemma_parse_rec_size(lines_of(input@), Seq::empty());
        lemma_totals_sum_bound(parsed);
        lemma_group_len_sum_parts(parsed);
        assert forall|j: int| 0 <= j < tv.len() implies #[trigger] tv[j] >= 0 by {
            assert(tv[j] == sum(views_of(elves@)[j]));
            lemma_sum_bound(views_of(elves@)[j]);
        }
        assert(tv.take(0) =~= Seq::<int>::empty());
    }
    let m = if k <= elves.len() {
        k
    } else {
        elves.len()
    };
    let mut n: u64 = 0;
    let mut i: usize = 0;
    while i < m
        invariant
            0 <= i <= m <= elves@.len(),
            tv == totals_of(views_of(elves@)),
            tv.len() == elves@.len(),
            forall|j: int| 0 <= j < tv.len() ==> #[trigger] tv[j] >= 0,
            forall|j: int|
                0 <= j < elves@.len() ==> (#[trigger] elves@[j])@.len() < 0x1_0000_0000,
            sum_int(tv) == sum_int(totals_of(parsed)),
            sum_int(totals_of(parsed)) <= 0xffff_fffe * 0xffff_ffff,
            n == sum_int(tv.take(i as int)),
        decreases m - i,
    {
        proof {
            assert(tv.take(i + 1).drop_last() =~= tv.take(i as int));
            assert(tv.take(i + 1).last() == tv[i as int]);
            assert(tv[i as int] == sum(views_of(elves@)[i as int]));
            lemma_sum_int_prefix(tv, i + 1);
        }
        let t = elves[i].total_calories();
        proof {
            assert(views_of(elves@)[i as int] == elves@[i as int]@);
        }
        n = n + t;
        i += 1;
    }
    proof {
        lemma_ge_int_total_ordering();
        totals_of(parsed).lemma_sort_by_ensures(ge_int());
        broadcast use vstd::seq_lib::group_to_multiset_ensures;

        assert(sorted_by(tv, ge_int())) by {
            assert forall|x: int, y: int|
                0 <= x < y < tv.len() implies (ge_int())(tv[x], tv[y]) by {
                assert(tv[x] == sum(views_of(elves@)[x]));
                assert(tv[y] == sum(views_of(elves@)[y]));
            }
        }
        assert(tv.to_multiset() == totals_desc(parsed).to_multiset());
        lemma_sorted_unique(tv, totals_desc(parsed), ge_int());
        assert(tv =~= totals_desc(parsed));
        assert(tv.take(m as int) == totals_desc(parsed).take(if k as int <= totals_desc(
            parsed,
        ).len() {
            k as int
        } else {
            totals_desc(parsed).len() as int
        }));
    }
    Ok(n)
}

/// Totals are bounded by the number of calorie entries behind them.
proof fn lemma_totals_sum_bound(gs: Seq<Seq<u32>>)
    ensures
        sum_int(totals_of(gs)) <= 0xffff_ffff * group_len_sum(gs),
    decreases gs.len(),
{
    if gs.len() == 0 {
        assert(totals_of(gs) =~= Seq::<int>::empty());
    } else {
        lemma_totals_sum_bound(gs.drop_last());
        assert(totals_of(gs).drop_last() =~= totals_of(gs.drop_last()));
        assert(totals_of(gs).last() == sum(gs.last()));
        lemma_sum_bound(gs.last());
        lemma_group_len_sum_parts(gs.drop_last());
    }
}

} // verus!
