//! Named crate stacks: a fixed-width diagram is parsed into piles, a
//! list of move operations is applied either one crate at a time
//! (reversing the moved run) or as a block (preserving it), and the
//! top crates are read off in name order.

use vstd::prelude::*;
use vstd::slice::slice_subrange;

use crate::SolveError;
use crate::text::is_space;
use crate::text::is_space_byte;
use crate::text::lines_of;
use crate::text::num_of;
use crate::text::parse_u32;
use crate::text::parses_to;
use crate::text::split_lines;
use crate::text::tokenize;
use crate::text::tokens_of;

verus! {

/// One move order: `num` crates from the stack named `from` to the
/// stack named `to`.
#[derive(Clone, Copy, PartialEq, Eq, Structural, Debug)]
pub struct Op {
    pub num: u32,
    pub from: u8,
    pub to: u8,
}

/// The named piles: `names[i]` labels `piles[i]`, which holds its
/// crates bottom first.
pub struct Stacks {
    pub names: Vec<u8>,
    pub piles: Vec<Vec<Vec<u8>>>,
}

impl Stacks {
    /// One pile per name, names strictly increasing.
    pub open spec fn wf(self) -> bool {
        &&& self.names@.len() == self.piles@.len()
        &&& forall|i: int, j: int|
            0 <= i < j < self.names@.len() ==> #[trigger] self.names@[i] < #[trigger] self.names@[j]
    }
}

pub open spec fn trim_right(s: Seq<u8>) -> Seq<u8>
    decreases s.len(),
{
    if s.len() > 0 && is_space(s.last()) {
        trim_right(s.drop_last())
    } else {
        s
    }
}

pub open spec fn trim_left(s: Seq<u8>) -> Seq<u8>
    decreases s.len(),
{
    if s.len() > 0 && is_space(s[0]) {
        trim_left(s.skip(1))
    } else {
        s
    }
}

/// The text without its leading and trailing whitespace.
pub open spec fn trim(s: Seq<u8>) -> Seq<u8> {
    trim_left(trim_right(s))
}

/// Strips leading and trailing whitespace from a slice.
fn trim_slice(s: &[u8]) -> (r: Vec<u8>)
    ensures
        r@ == trim(s@),
{
    let mut hi: usize = s.len();
    proof {
        assert(s@.take(s@.len() as int) =~= s@);
    }
    while hi > 0 && is_space_byte(s[hi - 1])
        invariant
            0 <= hi <= s@.len(),
            trim_right(s@) == trim_right(s@.take(hi as int)),
        decreases hi,
    {
        proof {
            assert(s@.take(hi as int).drop_last() =~= s@.take(hi - 1));
            assert(s@.take(hi as int).last() == s@[hi - 1]);
        }
        hi -= 1;
    }
    proof {
        if hi > 0 {
            assert(s@.take(hi as int).last() == s@[hi - 1]);
        }
        assert(trim_right(s@) == s@.take(hi as int));
        assert(s@.take(hi as int).skip(0) =~= s@.take(hi as int));
    }
    let mut lo: usize = 0;
    while lo < hi && is_space_byte(s[lo])
        invariant
            0 <= lo <= hi <= s@.len(),
            trim_right(s@) == s@.take(hi as int),
            trim_left(s@.take(hi as int).skip(lo as int)) == trim(s@),
        decreases hi - lo,
    {
        proof {
            assert(s@.take(hi as int).skip(lo as int).skip(1) =~= s@.take(hi as int).skip(
                lo + 1,
            ));
            assert(s@.take(hi as int).skip(lo as int)[0] == s@[lo as int]);
        }
        lo += 1;
    }
    let part = slice_subrange(s, lo, hi);
    proof {
        assert(s@.take(hi as int).skip(lo as int) =~= s@.subrange(lo as int, hi as int));
        if lo < hi {
            assert(s@.take(hi as int).skip(lo as int)[0] == s@[lo as int]);
        }
        assert(trim(s@) == s@.subrange(lo as int, hi as int));
    }
    let mut out: Vec<u8> = Vec::new();
    let mut i: usize = 0;
    while i < part.len()
        invariant
            0 <= i <= part@.len(),
            out@ == part@.take(i as int),
        decreases part@.len() - i,
    {
        proof {
            assert(part@.take(i + 1).drop_last() =~= part@.take(i as int));
            assert(part@.take(i + 1).last() == part@[i as int]);
        }
        out.push(part[i]);
        i += 1;
    }
    proof {
        assert(part@.take(part@.len() as int) =~= part@);
    }
    out
}

/// The fixed-width columns of a diagram row: four bytes each, the
/// last one possibly narrower.
pub open spec fn chunks4(line: Seq<u8>) -> Seq<Seq<u8>>
    decreases line.len(),
{
    if line.len() == 0 {
        Seq::empty()
    } else if line.len() <= 4 {
        seq![line]
    } else {
        seq![line.take(4)] + chunks4(line.skip(4))
    }
}

proof fn lemma_chunks4_len(line: Seq<u8>)
    ensures
        chunks4(line).len() == (line.len() + 3) / 4,
    decreases line.len(),
{
    if line.len() > 4 {
        lemma_chunks4_len(line.skip(4));
    }
}

proof fn lemma_chunks4_index(line: Seq<u8>, i: int)
    requires
        0 <= i < chunks4(line).len(),
    ensures
        chunks4(line)[i] == line.subrange(
            4 * i,
            if 4 * i + 4 <= line.len() {
                4 * i + 4
            } else {
                line.len() as int
            },
        ),
    decreases i,
{
    lemma_chunks4_len(line);
    if line.len() <= 4 {
        assert(line.subrange(0, line.len() as int) =~= line);
    } else if i == 0 {
        assert(line.take(4) =~= line.subrange(0, 4));
    } else {
        lemma_chunks4_len(line.skip(4));
        lemma_chunks4_index(line.skip(4), i - 1);
        let hi = if 4 * i + 4 <= line.len() {
            4 * i + 4
        } else {
            line.len() as int
        };
        assert(line.skip(4).subrange(
            4 * (i - 1),
            if 4 * (i - 1) + 4 <= line.skip(4).len() {
                4 * (i - 1) + 4
            } else {
                line.skip(4).len() as int
            },
        ) =~= line.subrange(4 * i, hi));
    }
}

/// The crate (trimmed column text) that row contributes to stack `i`;
/// empty when the column is blank or missing.
pub open spec fn row_item(row: Seq<u8>, i: int) -> Seq<u8> {
    if i < chunks4(row).len() {
        trim(chunks4(row)[i])
    } else {
        Seq::empty()
    }
}

/// The pile of stack `i` built from the diagram rows (top row first):
/// bottom crate first, top crate last.
pub open spec fn pile_of(rows: Seq<Seq<u8>>, i: int) -> Seq<Seq<u8>>
    decreases rows.len(),
{
    if rows.len() == 0 {
        Seq::empty()
    } else {
        let below = pile_of(rows.skip(1), i);
        if row_item(rows[0], i).len() > 0 {
            below.push(row_item(rows[0], i))
        } else {
            below
        }
    }
}

/// The stack names on the label line: whitespace-separated numbers,
/// strictly increasing; `None` otherwise.
pub open spec fn parse_names_rec(toks: Seq<Seq<u8>>) -> Option<Seq<u8>>
    decreases toks.len(),
{
    if toks.len() == 0 {
        Some(Seq::empty())
    } else {
        match parse_names_rec(toks.drop_last()) {
            Some(ns) => if parses_to(toks.last(), 255) && (ns.len() == 0 || ns.last() < num_of(
                toks.last(),
            )) {
                Some(ns.push(num_of(toks.last()) as u8))
            } else {
                None
            },
            None => None,
        }
    }
}

/// What a stack diagram denotes: the names on its last line and one
/// pile per name from the rows above; `None` without a line of names,
/// on a bad name line, or on a row wider than the names.
pub open spec fn parse_stacks_spec(s: Seq<u8>) -> Option<(Seq<u8>, Seq<Seq<Seq<u8>>>)> {
    let lines = lines_of(s);
    if lines.len() == 0 {
        None
    } else {
        let rows = lines.drop_last();
        match parse_names_rec(tokens_of(lines.last())) {
            None => None,
            Some(names) => if forall|r: int|
                0 <= r < rows.len() ==> (#[trigger] chunks4(rows[r])).len() <= names.len() {
                Some((names, Seq::new(names.len() as nat, |i: int| pile_of(rows, i))))
            } else {
                None
            },
        }
    }
}

/// Reads a stack diagram: crate rows above one line of stack names.
pub fn parse_stacks(input: &[u8]) -> (r: Result<Stacks, SolveError>)
    ensures
        match r {
            Ok(st) => st.wf() && parse_stacks_spec(input@) == Some((st.names@, st.piles.deep_view())),
            Err(e) => e == SolveError::Malformed && parse_stacks_spec(input@) is None,
        },
{
    let lines = split_lines(input);
    let ghost lseq = lines_of(input@);
    if lines.len() == 0 {
        return Err(SolveError::Malformed);
    }
    proof {
        crate::text::lemma_deep_view_index(&lines, lines@.len() - 1);
    }
    let toks = tokenize(lines[lines.len() - 1].as_slice());
    let ghost tseq = tokens_of(lseq.last());
    let mut names: Vec<u8> = Vec::new();
    let mut j: usize = 0;
    proof {
        assert(tseq.take(0) =~= Seq::<Seq<u8>>::empty());
    }
    while j < toks.len()
        invariant
            0 <= j <= tseq.len(),
            toks.deep_view() == tseq,
            toks@.len() == tseq.len(),
            parse_names_rec(tseq.take(j as int)) == Some(names@),
            names@.len() == j,
            forall|a: int, b: int| 0 <= a < b < names@.len() ==> #[trigger] names@[a]
                < #[trigger] names@[b],
        decreases tseq.len() - j,
    {
        proof {
            assert(tseq.take(j + 1).drop_last() =~= tseq.take(j as int));
            assert(tseq.take(j + 1).last() == tseq[j as int]);
            crate::text::lemma_deep_view_index(&toks, j as int);
        }
        let n = match parse_u32(toks[j].as_slice()) {
            None => {
                proof {
                    lemma_names_none_sticks(tseq, j + 1);
                }
                return Err(SolveError::Malformed);
            },
            Some(v) => v,
        };
        if n > 255 {
            proof {
                crate::text::lemma_num_of_nonneg(tseq[j as int]);
                lemma_names_none_sticks(tseq, j + 1);
            }
            return Err(SolveError::Malformed);
        }
        if names.len() > 0 && names[names.len() - 1] >= n as u8 {
            proof {
                crate::text::lemma_num_of_nonneg(tseq[j as int]);
                lemma_names_none_sticks(tseq, j + 1);
            }
            return Err(SolveError::Malformed);
        }
        proof {
            crate::text::lemma_num_of_nonneg(tseq[j as int]);
            assert forall|a: int, b: int|
                0 <= a < b < names@.len() + 1 implies #[trigger] names@.push(n as u8)[a]
                < #[trigger] names@.push(n as u8)[b] by {
                if b < names@.len() {
                } else if a < names@.len() {
                    assert(names@[a] <= names@[names@.len() - 1] || a == names@.len() - 1);
                }
            }
        }
        names.push(n as u8);
        j += 1;
    }
    proof {
        assert(tseq.take(tseq.len() as int) =~= tseq);
    }
    let ghost rows = lseq.drop_last();
    // Reject any row wider than the row of names.
    let mut v: usize = 0;
    while v + 1 < lines.len()
        invariant
            0 <= v <= rows.len(),
            v < lines@.len(),
            lines.deep_view() == lseq,
            lines@.len() == lseq.len(),
            lseq.len() >= 1,
            rows == lseq.drop_last(),
            forall|r0: int|
                0 <= r0 < v ==> (#[trigger] chunks4(rows[r0])).len() <= names@.len(),
        decreases lines@.len() - v,
    {
        proof {
            crate::text::lemma_deep_view_index(&lines, v as int);
            assert(rows[v as int] == lseq[v as int]);
            lemma_chunks4_len(rows[v as int]);
        }
        let line_len = lines[v].len();
        let nc = line_len / 4 + (if line_len % 4 != 0 {
            1usize
        } else {
            0usize
        });
        proof {
            assert(nc == (rows[v as int].len() + 3) / 4);
        }
        if nc > names.len() {
            return Err(SolveError::Malformed);
        }
        v += 1;
    }
    let mut piles: Vec<Vec<Vec<u8>>> = Vec::new();
    let mut i: usize = 0;
    while i < names.len()
        invariant
            0 <= i <= names@.len(),
            lines.deep_view() == lseq,
            lines@.len() == lseq.len(),
            lseq.len() >= 1,
            rows == lseq.drop_last(),
            piles@.len() == i,
            forall|k: int| 0 <= k < i ==> #[trigger] piles.deep_view()[k] == pile_of(rows, k),
            forall|r0: int|
                0 <= r0 < rows.len() ==> (#[trigger] chunks4(rows[r0])).len() <= names@.len(),
        decreases names@.len() - i,
    {
        let mut pile: Vec<Vec<u8>> = Vec::new();
        let mut rr: usize = lines.len() - 1;
        proof {
            assert(rows.skip(rows.len() as int) =~= Seq::<Seq<u8>>::empty());
        }
        while rr > 0
            invariant
                0 <= rr <= rows.len(),
                rows.len() == lseq.len() - 1,
                lines.deep_view() == lseq,
                lines@.len() == lseq.len(),
                rows == lseq.drop_last(),
                pile.deep_view() == pile_of(rows.skip(rr as int), i as int),
                i < names@.len(),
            decreases rr,
        {
            rr -= 1;
            proof {
                assert(rows.skip(rr as int).skip(1) =~= rows.skip(rr + 1));
                assert(rows.skip(rr as int)[0] == rows[rr as int]);
                assert(rows[rr as int] == lseq[rr as int]);
                crate::text::lemma_deep_view_index(&lines, rr as int);
            }
            let line = &lines[rr];
            let ghost row = rows[rr as int];
            proof {
                lemma_chunks4_len(row);
            }
            let line_len = line.len();
            let nc = line_len / 4 + (if line_len % 4 != 0 {
                1usize
            } else {
                0usize
            });
            proof {
                assert(nc == (row.len() + 3) / 4);
            }
            if i < nc {
                proof {
                    assert(4 * i < row.len());
                }
                let hi = if line_len >= 4 && 4 * i <= line_len - 4 {
                    4 * i + 4
                } else {
                    line_len
                };
                let chunk = slice_subrange(line.as_slice(), 4 * i, hi);
                let item = trim_slice(chunk);
                proof {
                    lemma_chunks4_index(row, i as int);
                    assert(chunk@ == chunks4(row)[i as int]);
                    assert(item@ == row_item(row, i as int));
                }
                let ghost pre = pile.deep_view();
                if item.len() > 0 {
                    pile.push(item);
                    proof {
                        assert(pile.deep_view() =~~= pre.push(row_item(row, i as int)));
                    }
                }
            } else {
                proof {
                    assert(row_item(row, i as int) =~= Seq::<u8>::empty());
                }
            }
        }
        proof {
            assert(rows.skip(0) =~= rows);
        }
        let ghost pre_piles = piles.deep_view();
        piles.push(pile);
        proof {
            assert(piles.deep_view() =~~= pre_piles.push(pile_of(rows, i as int)));
        }
        i += 1;
    }
    proof {
        assert(piles.deep_view() =~~= Seq::new(names@.len() as nat, |k: int| pile_of(rows, k)));
    }
    Ok(Stacks { names, piles })
}

proof fn lemma_names_none_sticks(toks: Seq<Seq<u8>>, j: int)
    requires
        0 <= j <= toks.len(),
        parse_names_rec(toks.take(j)) is None,
    ensures
        parse_names_rec(toks) is None,
    decreases toks.len() - j,
{
    if j < toks.len() {
        assert(toks.take(j + 1).drop_last() =~= toks.take(j));
        lemma_names_none_sticks(toks, j + 1);
    } else {
        assert(toks.take(j) =~= toks);
    }
}

/// The operation a `move N from A to B` line denotes: the second,
/// fourth and sixth tokens, as numbers.
pub open spec fn parse_op(line: Seq<u8>) -> Option<Op> {
    let toks = tokens_of(line);
    if toks.len() >= 6 && parses_to(toks[1], u32::MAX as int) && parses_to(toks[3], 255)
        && parses_to(toks[5], 255) {
        Some(
            Op {
                num: num_of(toks[1]) as u32,
                from: num_of(toks[3]) as u8,
                to: num_of(toks[5]) as u8,
            },
        )
    } else {
        None
    }
}

/// One operation per line; `None` as soon as any line fails.
pub open spec fn parse_ops_rec(lines: Seq<Seq<u8>>) -> Option<Seq<Op>>
    decreases lines.len(),
{
    if lines.len() == 0 {
        Some(Seq::empty())
    } else {
        match (parse_ops_rec(lines.drop_last()), parse_op(lines.last())) {
            (Some(ops), Some(op)) => Some(ops.push(op)),
            _ => None,
        }
    }
}

proof fn lemma_ops_none_sticks(lines: Seq<Seq<u8>>, i: int)
    requires
        0 <= i <= lines.len(),
        parse_ops_rec(lines.take(i)) is None,
    ensures
        parse_ops_rec(lines) is None,
    decreases lines.len() - i,
{
    if i < lines.len() {
        assert(lines.take(i + 1).drop_last() =~= lines.take(i));
        lemma_ops_none_sticks(lines, i + 1);
    } else {
        assert(lines.take(i) =~= lines);
    }
}

/// Reads the move list, one operation per line.
pub fn parse_operations(input: &[u8]) -> (r: Result<Vec<Op>, SolveError>)
    ensures
        match r {
            Ok(ops) => parse_ops_rec(lines_of(input@)) == Some(ops@),
            Err(e) => e == SolveError::Malformed && parse_ops_rec(lines_of(input@)) is None,
        },
{
    let lines = split_lines(input);
    let ghost lseq = lines_of(input@);
    let mut ops: Vec<Op> = Vec::new();
    let mut i: usize = 0;
    proof {
        assert(lseq.take(0) =~= Seq::<Seq<u8>>::empty());
        assert(ops@ =~= Seq::<Op>::empty());
    }
    while i < lines.len()
        invariant
            0 <= i <= lseq.len(),
            lines.deep_view() == lseq,
            lines@.len() == lseq.len(),
            parse_ops_rec(lseq.take(i as int)) == Some(ops@),
        decreases lseq.len() - i,
    {
        proof {
            assert(lseq.take(i + 1).drop_last() =~= lseq.take(i as int));
            crate::text::lemma_deep_view_index(&lines, i as int);
        }
        let toks = tokenize(lines[i].as_slice());
        let ghost tseq = tokens_of(lseq[i as int]);
        if toks.len() < 6 {
            proof {
                lemma_ops_none_sticks(lseq, i + 1);
            }
            return Err(SolveError::Malformed);
        }
        proof {
            crate::text::lemma_deep_view_index(&toks, 1);
            crate::text::lemma_deep_view_index(&toks, 3);
            crate::text::lemma_deep_view_index(&toks, 5);
        }
        let num = parse_u32(toks[1].as_slice());
        let from = parse_u32(toks[3].as_slice());
        let to = parse_u32(toks[5].as_slice());
        match (num, from, to) {
            (Some(n), Some(f), Some(t)) => {
                proof {
                    crate::text::lemma_num_of_nonneg(tseq[3]);
                    crate::text::lemma_num_of_nonneg(tseq[5]);
                }
                if f > 255 || t > 255 {
                    proof {
                        lemma_ops_none_sticks(lseq, i + 1);
                    }
                    return Err(SolveError::Malformed);
                }
                ops.push(Op { num: n, from: f as u8, to: t as u8 });
            },
            _ => {
                proof {
                    lemma_ops_none_sticks(lseq, i + 1);
                }
                return Err(SolveError::Malformed);
            },
        }
        i += 1;
    }
    proof {
        assert(lseq.take(lseq.len() as int) =~= lseq);
    }
    Ok(ops)
}

/// Moving `n` crates one at a time: the source loses its top `n`, the
/// destination gains them in reverse; a move onto itself changes
/// nothing.
pub open spec fn move_single(p: Seq<Seq<Seq<u8>>>, f: int, t: int, n: int) -> Seq<
    Seq<Seq<u8>>,
> {
    if f == t {
        p
    } else {
        p.update(f, p[f].take(p[f].len() - n)).update(
            t,
            p[t] + p[f].skip(p[f].len() - n).reverse(),
        )
    }
}

/// Moving `n` crates as one block: as `move_single`, but the moved run
/// keeps its order.
pub open spec fn move_block(p: Seq<Seq<Seq<u8>>>, f: int, t: int, n: int) -> Seq<Seq<Seq<u8>>> {
    if f == t {
        p
    } else {
        p.update(f, p[f].take(p[f].len() - n)).update(t, p[t] + p[f].skip(p[f].len() - n))
    }
}

/// The position of a stack name, if any.
pub open spec fn index_of_name(names: Seq<u8>, x: u8) -> Option<int>
    decreases names.len(),
{
    if names.len() == 0 {
        None
    } else if names[0] == x {
        Some(0)
    } else {
        match index_of_name(names.skip(1), x) {
            Some(i) => Some(i + 1),
            None => None,
        }
    }
}

proof fn lemma_index_of_name_props(names: Seq<u8>, x: u8)
    ensures
        index_of_name(names, x) matches Some(i) ==> 0 <= i < names.len() && names[i] == x && (
        forall|k: int| 0 <= k < i ==> names[k] != x),
        index_of_name(names, x) is None ==> forall|k: int| 0 <= k < names.len() ==> names[k] != x,
    decreases names.len(),
{
    if names.len() > 0 && names[0] != x {
        lemma_index_of_name_props(names.skip(1), x);
        assert(forall|k: int|
            0 <= k < names.skip(1).len() ==> #[trigger] names.skip(1)[k] == names[k + 1]);
        if index_of_name(names.skip(1), x) is Some {
            let i = index_of_name(names.skip(1), x)->Some_0;
            assert(names.skip(1)[i] == x);
            assert forall|k: int| 0 <= k < i + 1 implies names[k] != x by {
                if k > 0 {
                    assert(names.skip(1)[k - 1] != x);
                }
            }
        } else {
            assert forall|k: int| 0 <= k < names.len() implies names[k] != x by {
                if k > 0 {
                    assert(names.skip(1)[k - 1] != x);
                }
            }
        }
    }
}

/// Finds a stack by name.
fn find_name(names: &Vec<u8>, x: u8) -> (r: Option<usize>)
    ensures
        match r {
            Some(i) => index_of_name(names@, x) == Some(i as int),
            None => index_of_name(names@, x) is None,
        },
{
    proof {
        lemma_index_of_name_props(names@, x);
    }
    let mut i: usize = 0;
    while i < names.len()
        invariant
            0 <= i <= names@.len(),
            forall|k: int| 0 <= k < i ==> names@[k] != x,
        decreases names@.len() - i,
    {
        if names[i] == x {
            proof {
                if index_of_name(names@, x) is None {
                    assert(false);
                }
            }
            return Some(i);
        }
        i += 1;
    }
    proof {
        if index_of_name(names@, x) is Some {
            let j = index_of_name(names@, x)->Some_0;
            assert(names@[j] == x);
            assert(false);
        }
    }
    None
}

/// The piles after the whole move list, `None` at the first operation
/// that names a missing stack or asks for more crates than its source
/// holds.
pub open spec fn apply_ops(
    names: Seq<u8>,
    p: Seq<Seq<Seq<u8>>>,
    ops: Seq<Op>,
    block: bool,
) -> Option<Seq<Seq<Seq<u8>>>>
    decreases ops.len(),
{
    if ops.len() == 0 {
        Some(p)
    } else {
        let op = ops[0];
        match (index_of_name(names, op.from), index_of_name(names, op.to)) {
            (Some(f), Some(t)) => if 0 <= f < p.len() && 0 <= t < p.len() && op.num <= p[f].len() {
                apply_ops(
                    names,
                    if block {
                        move_block(p, f, t, op.num as int)
                    } else {
                        move_single(p, f, t, op.num as int)
                    },
                    ops.skip(1),
                    block,
                )
            } else {
                None
            },
            _ => None,
        }
    }
}

/// Performs one one-at-a-time move; the indices must be in range and
/// the source long enough.
fn do_move_single(piles: &mut Vec<Vec<Vec<u8>>>, fi: usize, ti: usize, n: usize)
    requires
        fi < old(piles)@.len(),
        ti < old(piles)@.len(),
        fi != ti,
        n <= old(piles)@[fi as int]@.len(),
    ensures
        final(piles).deep_view() == move_single(
            old(piles).deep_view(),
            fi as int,
            ti as int,
            n as int,
        ),
        final(piles)@.len() == old(piles)@.len(),
{
    let ghost p0 = piles.deep_view();
    let ghost pf0 = piles@[fi as int].deep_view();
    let ghost pt0 = piles@[ti as int].deep_view();
    let ghost l0 = pf0.len() as int;
    let mut k: usize = 0;
    proof {
        assert(pf0.skip(l0) =~= Seq::<Seq<u8>>::empty());
        assert(pt0 + pf0.skip(l0).reverse() =~= pt0);
        assert(piles.deep_view() =~~= p0.update(fi as int, pf0.take(l0 - 0)).update(
            ti as int,
            pt0 + pf0.skip(l0 - 0).reverse(),
        ));
    }
    while k < n
        invariant
            0 <= k <= n <= l0,
            fi < piles@.len(),
            ti < piles@.len(),
            fi != ti,
            piles@.len() == p0.len(),
            l0 == pf0.len(),
            piles.deep_view() =~~= p0.update(fi as int, pf0.take(l0 - k)).update(
                ti as int,
                pt0 + pf0.skip(l0 - k).reverse(),
            ),
        decreases n - k,
    {
        let ghost pre = piles.deep_view();
        let mut pf = piles.remove(fi);
        proof {
            assert(pf.deep_view() == pre[fi as int]);
            assert(pf.deep_view() =~~= pf0.take(l0 - k));
        }
        let item = match pf.pop() {
            Some(x) => x,
            None => {
                proof {
                    assert(false);
                }
                Vec::new()
            },
        };
        proof {
            assert(item.deep_view() == pf0.take(l0 - k).last());
            assert(item.deep_view() == pf0[l0 - k - 1]);
            assert(pf.deep_view() =~~= pf0.take(l0 - k - 1));
        }
        piles.insert(fi, pf);
        proof {
            assert(piles.deep_view() =~~= pre.update(fi as int, pf0.take(l0 - k - 1)));
        }
        let ghost mid = piles.deep_view();
        let mut pt = piles.remove(ti);
        proof {
            assert(pt.deep_view() == mid[ti as int]);
            assert(mid[ti as int] == pre[ti as int]);
            assert(pt.deep_view() =~~= pt0 + pf0.skip(l0 - k).reverse());
        }
        pt.push(item);
        piles.insert(ti, pt);
        proof {
            assert((pt0 + pf0.skip(l0 - k).reverse()).push(pf0[l0 - k - 1]) =~~= pt0 + pf0.skip(
                l0 - k - 1,
            ).reverse());
            assert(piles.deep_view() =~~= mid.update(
                ti as int,
                pt0 + pf0.skip(l0 - k - 1).reverse(),
            ));
            assert(piles.deep_view() =~~= p0.update(fi as int, pf0.take(l0 - (k + 1))).update(
                ti as int,
                pt0 + pf0.skip(l0 - (k + 1)).reverse(),
            ));
        }
        k += 1;
    }
    proof {
        assert(piles.deep_view() =~~= move_single(p0, fi as int, ti as int, n as int));
    }
}

/// Performs one block move; the indices must be in range and the
/// source long enough.
fn do_move_block(piles: &mut Vec<Vec<Vec<u8>>>, fi: usize, ti: usize, n: usize)
    requires
        fi < old(piles)@.len(),
        ti < old(piles)@.len(),
        fi != ti,
        n <= old(piles)@[fi as int]@.len(),
    ensures
        final(piles).deep_view() == move_block(
            old(piles).deep_view(),
            fi as int,
            ti as int,
            n as int,
        ),
        final(piles)@.len() == old(piles)@.len(),
{
    let ghost p0 = piles.deep_view();
    let ghost pf0 = piles@[fi as int].deep_view();
    let ghost pt0 = piles@[ti as int].deep_view();
    let ghost l0 = pf0.len() as int;
    let mut pf = piles.remove(fi);
    let mut tmp: Vec<Vec<u8>> = Vec::new();
    let mut k: usize = 0;
    proof {
        assert(pf.deep_view() =~~= pf0);
        assert(pf0.skip(l0).reverse() =~= Seq::<Seq<u8>>::empty());
        assert(tmp.deep_view() =~~= pf0.skip(l0).reverse());
    }
    while k < n
        invariant
            0 <= k <= n <= l0,
            l0 == pf0.len(),
            pf.deep_view() =~~= pf0.take(l0 - k),
            tmp.deep_view() =~~= pf0.skip(l0 - k).reverse(),
        decreases n - k,
    {
        let ghost pre_tmp = tmp.deep_view();
        let ghost pre_pf = pf.deep_view();
        let item = match pf.pop() {
            Some(x) => x,
            None => {
                proof {
                    assert(false);
                }
                Vec::new()
            },
        };
        proof {
            assert(item.deep_view() == pre_pf.last());
            assert(item.deep_view() == pf0[l0 - k - 1]);
            assert(pf.deep_view() =~~= pf0.take(l0 - k - 1));
        }
        tmp.push(item);
        proof {
            assert(tmp.deep_view() =~~= pre_tmp.push(pf0[l0 - k - 1]));
            assert(pf0.skip(l0 - k).reverse().push(pf0[l0 - k - 1]) =~~= pf0.skip(
                l0 - (k + 1),
            ).reverse());
        }
        k += 1;
    }
    piles.insert(fi, pf);
    let mut pt = piles.remove(ti);
    proof {
        assert(pt.deep_view() =~~= pt0);
    }
    let ghost moved = pf0.skip(l0 - n);
    let mut j: usize = 0;
    proof {
        assert(moved.take(0) =~= Seq::<Seq<u8>>::empty());
        assert(pt.deep_view() =~~= pt0 + moved.take(0));
    }
    while j < n
        invariant
            0 <= j <= n <= l0,
            l0 == pf0.len(),
            moved == pf0.skip(l0 - n),
            moved.len() == n,
            tmp.deep_view() =~~= moved.skip(j as int).reverse(),
            pt.deep_view() =~~= pt0 + moved.take(j as int),
        decreases n - j,
    {
        let ghost pre_pt = pt.deep_view();
        let ghost pre_tmp = tmp.deep_view();
        let item = match tmp.pop() {
            Some(x) => x,
            None => {
                proof {
                    assert(moved.skip(j as int).reverse().len() == 0);
                    assert(false);
                }
                Vec::new()
            },
        };
        proof {
            assert(item.deep_view() == pre_tmp.last());
            assert(moved.skip(j as int).reverse().len() == n - j);
            assert(pre_tmp.last() == moved.skip(j as int).reverse().last());
            assert(moved.skip(j as int).reverse().last() == moved[j as int]);
            assert(tmp.deep_view() =~~= pre_tmp.drop_last());
            assert(pre_tmp.drop_last() =~~= moved.skip(j + 1).reverse());
        }
        pt.push(item);
        proof {
            assert(pt.deep_view() =~~= pre_pt.push(moved[j as int]));
            assert(pre_pt.push(moved[j as int]) =~~= pt0 + moved.take(j + 1));
        }
        j += 1;
    }
    proof {
        assert(moved.take(n as int) =~= moved);
    }
    piles.insert(ti, pt);
    proof {
        assert(piles.deep_view() =~~= move_block(p0, fi as int, ti as int, n as int));
    }
}

/// Applies the move list one crate at a time: each moved run arrives
/// reversed.
pub fn apply_operations(stacks: Stacks, operations: &Vec<Op>) -> (r: Result<Stacks, SolveError>)
    requires
        stacks.wf(),
    ensures
        match r {
            Ok(st) => st.wf() && st.names@ == stacks.names@ && apply_ops(
                stacks.names@,
                stacks.piles.deep_view(),
                operations@,
                false,
            ) == Some(st.piles.deep_view()),
            Err(e) => e == SolveError::Malformed && apply_ops(
                stacks.names@,
                stacks.piles.deep_view(),
                operations@,
                false,
            ) is None,
        },
{
    apply_operations_with(stacks, operations, false)
}

/// Applies the move list in blocks: each moved run keeps its order.
pub fn apply_operations_9001(stacks: Stacks, operations: &Vec<Op>) -> (r: Result<
    Stacks,
    SolveError,
>)
    requires
        stacks.wf(),
    ensures
        match r {
            Ok(st) => st.wf() && st.names@ == stacks.names@ && apply_ops(
                stacks.names@,
                stacks.piles.deep_view(),
                operations@,
                true,
            ) == Some(st.piles.deep_view()),
            Err(e) => e == SolveError::Malformed && apply_ops(
                stacks.names@,
                stacks.piles.deep_view(),
                operations@,
                true,
            ) is None,
        },
{
    apply_operations_with(stacks, operations, true)
}

fn apply_operations_with(stacks: Stacks, operations: &Vec<Op>, block: bool) -> (r: Result<
    Stacks,
    SolveError,
>)
    requires
        stacks.wf(),
    ensures
        match r {
            Ok(st) => st.wf() && st.names@ == stacks.names@ && apply_ops(
                stacks.names@,
                stacks.piles.deep_view(),
                operations@,
                block,
            ) == Some(st.piles.deep_view()),
            Err(e) => e == SolveError::Malformed && apply_ops(
                stacks.names@,
                stacks.piles.deep_view(),
                operations@,
                block,
            ) is None,
        },
{
    let Stacks { names, mut piles } = stacks;
    let ghost p_start = piles.deep_view();
    let ghost ops_seq = operations@;
    let mut i: usize = 0;
    proof {
        assert(ops_seq.skip(0) =~= ops_seq);
    }
    while i < operations.len()
        invariant
            0 <= i <= ops_seq.len(),
            operations@ == ops_seq,
            names@ == stacks.names@,
            piles@.len() == names@.len(),
            apply_ops(names@, p_start, ops_seq, block) == apply_ops(
                names@,
                piles.deep_view(),
                ops_seq.skip(i as int),
                block,
            ),
        decreases ops_seq.len() - i,
    {
        proof {
            assert(ops_seq.skip(i as int).skip(1) =~= ops_seq.skip(i + 1));
            assert(ops_seq.skip(i as int)[0] == ops_seq[i as int]);
        }
        let op = operations[i];
        let fi = match find_name(&names, op.from) {
            None => {
                return Err(SolveError::Malformed);
            },
            Some(v) => v,
        };
        let ti = match find_name(&names, op.to) {
            None => {
                return Err(SolveError::Malformed);
            },
            Some(v) => v,
        };
        proof {
            lemma_index_of_name_props(names@, op.from);
            lemma_index_of_name_props(names@, op.to);
        }
        let n = op.num as usize;
        if n > piles[fi].len() {
            proof {
                assert(piles.deep_view()[fi as int].len() == piles@[fi as int]@.len());
            }
            return Err(SolveError::Malformed);
        }
        proof {
            assert(piles.deep_view()[fi as int].len() == piles@[fi as int]@.len());
        }
        let ghost prev_dv = piles.deep_view();
        if fi != ti {
            if block {
                do_move_block(&mut piles, fi, ti, n);
            } else {
                do_move_single(&mut piles, fi, ti, n);
            }
        }
        proof {
            if block {
                assert(piles.deep_view() == move_block(prev_dv, fi as int, ti as int, n as int));
            } else {
                assert(piles.deep_view() == move_single(prev_dv, fi as int, ti as int, n as int));
            }
            assert(apply_ops(names@, prev_dv, ops_seq.skip(i as int), block) == apply_ops(
                names@,
                piles.deep_view(),
                ops_seq.skip(i + 1),
                block,
            ));
        }
        i += 1;
    }
    proof {
        assert(ops_seq.skip(ops_seq.len() as int) =~= Seq::<Op>::empty());
    }
    Ok(Stacks { names, piles })
}

/// The top crates' marks: byte 1 of each pile's top crate, in name
/// order; `None` on an empty pile or a crate shorter than two bytes.
pub open spec fn tops_rec(piles: Seq<Seq<Seq<u8>>>) -> Option<Seq<u8>>
    decreases piles.len(),
{
    if piles.len() == 0 {
        Some(Seq::empty())
    } else {
        match tops_rec(piles.drop_last()) {
            Some(acc) => if piles.last().len() > 0 && piles.last().last().len() >= 2 {
                Some(acc.push(piles.last().last()[1]))
            } else {
                None
            },
            None => None,
        }
    }
}

proof fn lemma_tops_none_sticks(piles: Seq<Seq<Seq<u8>>>, i: int)
    requires
        0 <= i <= piles.len(),
        tops_rec(piles.take(i)) is None,
    ensures
        tops_rec(piles) is None,
    decreases piles.len() - i,
{
    if i < piles.len() {
        assert(piles.take(i + 1).drop_last() =~= piles.take(i));
        lemma_tops_none_sticks(piles, i + 1);
    } else {
        assert(piles.take(i) =~= piles);
    }
}

/// The first position of a blank-line separator (two newlines in a
/// row) at or after `i`; negative when none exists.
pub open spec fn find_blank(s: Seq<u8>, i: int) -> int
    decreases s.len() - i,
        when 0 <= i <= s.len()
{
    if i + 1 >= s.len() {
        -1
    } else if s[i] == 10 && s[i + 1] == 10 {
        i
    } else {
        find_blank(s, i + 1)
    }
}

/// What a whole run denotes: the input splits at its first blank line
/// into a diagram and a move list; the moves are applied and byte 1
/// of each top crate is read off in name order.
pub open spec fn get_tops_spec(input: Seq<u8>, block: bool) -> Result<Seq<u8>, SolveError> {
    let b = find_blank(input, 0);
    if b < 0 {
        Err(SolveError::Malformed)
    } else {
        match parse_stacks_spec(input.take(b)) {
            None => Err(SolveError::Malformed),
            Some((names, piles)) => match parse_ops_rec(lines_of(input.skip(b + 2))) {
                None => Err(SolveError::Malformed),
                Some(ops) => match apply_ops(names, piles, ops, block) {
                    None => Err(SolveError::Malformed),
                    Some(fin) => match tops_rec(fin) {
                        Some(t) => Ok(t),
                        None => Err(SolveError::Malformed),
                    },
                },
            },
        }
    }
}

/// Runs a whole input: parses the diagram and the move list, applies
/// the moves (one at a time, or in blocks when `block` holds) and
/// returns the top crates' marks in name order.
pub fn get_tops(input: &[u8], block: bool) -> (r: Result<Vec<u8>, SolveError>)
    ensures
        match r {
            Ok(tops) => get_tops_spec(input@, block) == Ok::<Seq<u8>, SolveError>(tops@),
            Err(e) => get_tops_spec(input@, block) == Err::<Seq<u8>, SolveError>(e),
        },
{
    let mut b: usize = 0;
    let mut found = false;
    while !found && input.len() >= 1 && b < input.len() - 1
        invariant
            0 <= b <= input@.len(),
            found ==> b + 1 < input@.len() && find_blank(input@, 0) == b,
            !found ==> find_blank(input@, 0) == find_blank(input@, b as int),
        decreases input@.len() - b + (if found {
            0int
        } else {
            1int
        }),
    {
        if input[b] == 10 && input[b + 1] == 10 {
            found = true;
        } else {
            b += 1;
        }
    }
    if !found {
        return Err(SolveError::Malformed);
    }
    proof {
        assert(find_blank(input@, 0) == b as int);
        assert(b + 2 <= input@.len());
    }
    let total = input.len();
    let head = slice_subrange(input, 0, b);
    let tail = slice_subrange(input, b + 2, total);
    proof {
        assert(head@ =~= input@.take(b as int));
        assert(tail@ =~= input@.skip(b + 2));
    }
    let stacks = match parse_stacks(head) {
        Err(e) => {
            return Err(e);
        },
        Ok(st) => st,
    };
    let ops = match parse_operations(tail) {
        Err(e) => {
            return Err(e);
        },
        Ok(v) => v,
    };
    let moved = if block {
        apply_operations_9001(stacks, &ops)
    } else {
        apply_operations(stacks, &ops)
    };
    let fin = match moved {
        Err(e) => {
            return Err(e);
        },
        Ok(st) => st,
    };
    let ghost fseq = fin.piles.deep_view();
    let mut tops: Vec<u8> = Vec::new();
    let mut i: usize = 0;
    proof {
        assert(fseq.take(0) =~= Seq::<Seq<Seq<u8>>>::empty());
        assert(tops@ =~= Seq::<u8>::empty());
    }
    while i < fin.piles.len()
        invariant
            0 <= i <= fseq.len(),
            fin.piles.deep_view() == fseq,
            fin.piles@.len() == fseq.len(),
            tops_rec(fseq.take(i as int)) == Some(tops@),
        decreases fseq.len() - i,
    {
        proof {
            assert(fseq.take(i + 1).drop_last() =~= fseq.take(i as int));
            assert(fseq.take(i + 1).last() == fseq[i as int]);
            assert(fseq[i as int] == fin.piles@[i as int].deep_view());
        }
        let pile = &fin.piles[i];
        if pile.len() == 0 {
            proof {
                lemma_tops_none_sticks(fseq, i + 1);
            }
            return Err(SolveError::Malformed);
        }
        let top = &pile[pile.len() - 1];
        proof {
            assert(top@ == fseq[i as int].last());
        }
        if top.len() < 2 {
            proof {
                lemma_tops_none_sticks(fseq, i + 1);
            }
            return Err(SolveError::Malformed);
        }
        tops.push(top[1]);
        i += 1;
    }
    proof {
        assert(fseq.take(fseq.len() as int) =~= fseq);
    }
    Ok(tops)
}

/// Law: the two move semantics are genuinely distinct. Moving `n`
/// crates one at a time and bringing them back as a block leaves the
/// source pile with its top `n` crates reversed, while two block
/// moves restore the starting piles; whenever those `n` crates are
/// not their own reverse, the two round trips end in different
/// states.
pub proof fn lemma_move_semantics_distinct(p: Seq<Seq<Seq<u8>>>, f: int, t: int, n: int)
    requires
        0 <= f < p.len(),
        0 <= t < p.len(),
        f != t,
        0 <= n <= p[f].len(),
    ensures
        ({
            let rest = p[f].take(p[f].len() - n);
            let moved = p[f].skip(p[f].len() - n);
            &&& move_block(move_single(p, f, t, n), t, f, n) == p.update(
                f,
                rest + moved.reverse(),
            )
            &&& move_block(move_block(p, f, t, n), t, f, n) == p
            &&& moved.reverse() != moved ==> move_block(move_single(p, f, t, n), t, f, n)
                != move_block(move_block(p, f, t, n), t, f, n)
        }),
{
    {
        let rest = p[f].take(p[f].len() - n);
        let moved = p[f].skip(p[f].len() - n);
        let q = move_single(p, f, t, n);
        assert(q[t].len() == p[t].len() + n);
        assert(q[t].take(q[t].len() - n) =~= p[t]);
        assert(q[t].skip(q[t].len() - n) =~= moved.reverse());
        assert(move_block(q, t, f, n) =~~= p.update(f, rest + moved.reverse()));
        let q2 = move_block(p, f, t, n);
        assert(q2[t].len() == p[t].len() + n);
        assert(q2[t].take(q2[t].len() - n) =~= p[t]);
        assert(q2[t].skip(q2[t].len() - n) =~= moved);
        assert(rest + moved =~= p[f]);
        assert(move_block(q2, t, f, n) =~~= p);
        if moved.reverse() != moved {
            assert(rest + moved.reverse() != rest + moved) by {
                if rest + moved.reverse() == rest + moved {
                    assert(moved.reverse() =~= moved) by {
                        assert(forall|k: int|
                            0 <= k < moved.len() ==> (rest + moved.reverse())[rest.len() + k]
                                == #[trigger] moved.reverse()[k]);
                        assert(forall|k: int|
                            0 <= k < moved.len() ==> (rest + moved)[rest.len() + k]
                                == #[trigger] moved[k]);
                    }
                }
            }
            assert(move_block(move_single(p, f, t, n), t, f, n)[f] == rest + moved.reverse());
        }
    }
}

} // verus!
