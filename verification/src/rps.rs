//! Scoring of letter-coded game rounds: each line names the opponent's
//! figure and either the player's figure or the intended outcome, and
//! every round is worth a fixed shape value plus an outcome value.

use vstd::prelude::*;

use crate::SolveError;
use crate::text::lines_of;
use crate::text::split_lines;

verus! {

#[derive(Clone, Copy, PartialEq, Eq, Structural, Debug)]
pub enum Figure {
    Rock,
    Paper,
    Scissors,
}

impl Figure {
    /// The figure this one defeats.
    pub open spec fn beats(self) -> Figure {
        match self {
            Figure::Rock => Figure::Scissors,
            Figure::Paper => Figure::Rock,
            Figure::Scissors => Figure::Paper,
        }
    }

    /// The figure this one is defeated by.
    pub open spec fn beaten_by(self) -> Figure {
        match self {
            Figure::Rock => Figure::Paper,
            Figure::Paper => Figure::Scissors,
            Figure::Scissors => Figure::Rock,
        }
    }

    /// The fixed value of playing this figure.
    pub open spec fn shape_value(self) -> int {
        match self {
            Figure::Rock => 1,
            Figure::Paper => 2,
            Figure::Scissors => 3,
        }
    }

    /// The figure a code letter stands for (`A`/`X` rock, `B`/`Y`
    /// paper, `C`/`Z` scissors).
    pub open spec fn from_code_spec(c: u8) -> Option<Figure> {
        if c == 65 || c == 88 {
            Some(Figure::Rock)
        } else if c == 66 || c == 89 {
            Some(Figure::Paper)
        } else if c == 67 || c == 90 {
            Some(Figure::Scissors)
        } else {
            None
        }
    }

    pub fn wins_against(&self) -> (r: Figure)
        ensures
            r == self.beats(),
    {
        match self {
            Figure::Rock => Figure::Scissors,
            Figure::Paper => Figure::Rock,
            Figure::Scissors => Figure::Paper,
        }
    }

    pub fn loses_against(&self) -> (r: Figure)
        ensures
            r == self.beaten_by(),
    {
        match self {
            Figure::Rock => Figure::Paper,
            Figure::Paper => Figure::Scissors,
            Figure::Scissors => Figure::Rock,
        }
    }

    /// Decodes a figure letter; `Malformed` on any other byte.
    pub fn from_code(c: u8) -> (r: Result<Figure, SolveError>)
        ensures
            match r {
                Ok(f) => Figure::from_code_spec(c) == Some(f),
                Err(e) => e == SolveError::Malformed && Figure::from_code_spec(c) is None,
            },
    {
        if c == 65 || c == 88 {
            Ok(Figure::Rock)
        } else if c == 66 || c == 89 {
            Ok(Figure::Paper)
        } else if c == 67 || c == 90 {
            Ok(Figure::Scissors)
        } else {
            Err(SolveError::Malformed)
        }
    }
}

/// A played round: the opponent's figure, then the player's.
#[derive(Clone, Copy, PartialEq, Eq, Structural, Debug)]
pub struct Round(pub Figure, pub Figure);

/// The outcome value of a round: 6 for a win, 3 for a draw, 0 for a
/// loss, judged from the player's side.
pub open spec fn outcome_value(opponent: Figure, own: Figure) -> int {
    if own.beats() == opponent {
        6
    } else if own.beaten_by() == opponent {
        0
    } else {
        3
    }
}

/// A round's score: the player's shape value plus the outcome value.
pub open spec fn score_spec(r: Round) -> int {
    r.1.shape_value() + outcome_value(r.0, r.1)
}

impl Round {
    pub fn score(self) -> (r: u8)
        ensures
            r as int == score_spec(self),
            1 <= r <= 9,
    {
        let shape: u8 = match self.1 {
            Figure::Rock => 1,
            Figure::Paper => 2,
            Figure::Scissors => 3,
        };
        let outcome: u8 = if self.1.wins_against() == self.0 {
            6
        } else if self.1.loses_against() == self.0 {
            0
        } else {
            3
        };
        shape + outcome
    }
}

/// The intended outcome of a round, from the player's side.
#[derive(Clone, Copy, PartialEq, Eq, Structural, Debug)]
pub enum Strategy {
    Lose,
    Draw,
    Win,
}

impl Strategy {
    /// The strategy a code letter stands for (`X` lose, `Y` draw, `Z`
    /// win).
    pub open spec fn from_code_spec(c: u8) -> Option<Strategy> {
        if c == 88 {
            Some(Strategy::Lose)
        } else if c == 89 {
            Some(Strategy::Draw)
        } else if c == 90 {
            Some(Strategy::Win)
        } else {
            None
        }
    }

    /// Decodes a strategy letter; `Malformed` on any other byte.
    pub fn from_code(c: u8) -> (r: Result<Strategy, SolveError>)
        ensures
            match r {
                Ok(s) => Strategy::from_code_spec(c) == Some(s),
                Err(e) => e == SolveError::Malformed && Strategy::from_code_spec(c) is None,
            },
    {
        if c == 88 {
            Ok(Strategy::Lose)
        } else if c == 89 {
            Ok(Strategy::Draw)
        } else if c == 90 {
            Ok(Strategy::Win)
        } else {
            Err(SolveError::Malformed)
        }
    }
}

/// The opponent's figure together with the intended outcome.
#[derive(Clone, Copy, PartialEq, Eq, Structural, Debug)]
pub struct RoundStrategy(pub Figure, pub Strategy);

/// The round that realises a strategy: the player picks the figure
/// that loses, draws or wins against the opponent's.
pub open spec fn round_spec(rs: RoundStrategy) -> Round {
    Round(
        rs.0,
        match rs.1 {
            Strategy::Lose => rs.0.beats(),
            Strategy::Draw => rs.0,
            Strategy::Win => rs.0.beaten_by(),
        },
    )
}

impl RoundStrategy {
    pub fn round(&self) -> (r: Round)
        ensures
            r == round_spec(*self),
    {
        Round(
            self.0,
            match self.1 {
                Strategy::Lose => self.0.wins_against(),
                Strategy::Draw => self.0,
                Strategy::Win => self.0.loses_against(),
            },
        )
    }
}

/// The round denoted by a line: a figure code at byte 0 and a figure
/// code at byte 2, on a line of at least three bytes.
pub open spec fn parse_round_spec(line: Seq<u8>) -> Option<Round> {
    if line.len() >= 3 {
        match (Figure::from_code_spec(line[0]), Figure::from_code_spec(line[2])) {
            (Some(a), Some(b)) => Some(Round(a, b)),
            _ => None,
        }
    } else {
        None
    }
}

/// As `parse_round_spec`, but byte 2 is an intended outcome.
pub open spec fn parse_strategy_spec(line: Seq<u8>) -> Option<RoundStrategy> {
    if line.len() >= 3 {
        match (Figure::from_code_spec(line[0]), Strategy::from_code_spec(line[2])) {
            (Some(a), Some(b)) => Some(RoundStrategy(a, b)),
            _ => None,
        }
    } else {
        None
    }
}

impl Round {
    /// Reads one `A X`-style line as a played round.
    pub fn parse(line: &[u8]) -> (r: Result<Round, SolveError>)
        ensures
            match r {
                Ok(rd) => parse_round_spec(line@) == Some(rd),
                Err(e) => e == SolveError::Malformed && parse_round_spec(line@) is None,
            },
    {
        if line.len() < 3 {
            return Err(SolveError::Malformed);
        }
        match (Figure::from_code(line[0]), Figure::from_code(line[2])) {
            (Ok(a), Ok(b)) => Ok(Round(a, b)),
            _ => Err(SolveError::Malformed),
        }
    }
}

impl RoundStrategy {
    /// Reads one `A X`-style line as an opponent figure and an
    /// intended outcome.
    pub fn parse(line: &[u8]) -> (r: Result<RoundStrategy, SolveError>)
        ensures
            match r {
                Ok(rs) => parse_strategy_spec(line@) == Some(rs),
                Err(e) => e == SolveError::Malformed && parse_strategy_spec(line@) is None,
            },
    {
        if line.len() < 3 {
            return Err(SolveError::Malformed);
        }
        match (Figure::from_code(line[0]), Strategy::from_code(line[2])) {
            (Ok(a), Ok(b)) => Ok(RoundStrategy(a, b)),
            _ => Err(SolveError::Malformed),
        }
    }
}

/// The total score of all lines read as played rounds; `None` as soon
/// as any line is malformed.
pub open spec fn total_round_score(lines: Seq<Seq<u8>>) -> Option<int>
    decreases lines.len(),
{
    if lines.len() == 0 {
        Some(0)
    } else {
        match (total_round_score(lines.drop_last()), parse_round_spec(lines.last())) {
            (Some(t), Some(r)) => Some(t + score_spec(r)),
            _ => None,
        }
    }
}

/// The total score of all lines read as strategies; `None` as soon as
/// any line is malformed.
pub open spec fn total_strategy_score(lines: Seq<Seq<u8>>) -> Option<int>
    decreases lines.len(),
{
    if lines.len() == 0 {
        Some(0)
    } else {
        match (total_strategy_score(lines.drop_last()), parse_strategy_spec(lines.last())) {
            (Some(t), Some(rs)) => Some(t + score_spec(round_spec(rs))),
            _ => None,
        }
    }
}

proof fn lemma_round_none_sticks(lines: Seq<Seq<u8>>, i: int)
    requires
        0 <= i <= lines.len(),
        total_round_score(lines.take(i)) is None,
    ensures
        total_round_score(lines) is None,
    decreases lines.len() - i,
{
    if i < lines.len() {
        assert(lines.take(i + 1).drop_last() =~= lines.take(i));
        lemma_round_none_sticks(lines, i + 1);
    } else {
        assert(lines.take(i) =~= lines);
    }
}

proof fn lemma_strategy_none_sticks(lines: Seq<Seq<u8>>, i: int)
    requires
        0 <= i <= lines.len(),
        total_strategy_score(lines.take(i)) is None,
    ensures
        total_strategy_score(lines) is None,
    decreases lines.len() - i,
{
    if i < lines.len() {
        assert(lines.take(i + 1).drop_last() =~= lines.take(i));
        lemma_strategy_none_sticks(lines, i + 1);
    } else {
        assert(lines.take(i) =~= lines);
    }
}

/// Sums the scores of all lines read as played rounds; `Malformed` as
/// soon as any line is not one.
pub fn part_1(input: &[u8]) -> (r: Result<u64, SolveError>)
    requires
        input@.len() < 0x1000_0000_0000_0000,
    ensures
        match r {
            Ok(n) => total_round_score(lines_of(input@)) == Some(n as int),
            Err(e) => e == SolveError::Malformed && total_round_score(lines_of(input@))
                is None,
        },
{
    let lines = split_lines(input);
    let ghost lseq = lines_of(input@);
    proof {
        crate::text::lemma_lines_len(input@);
    }
    let mut total: u64 = 0;
    let mut i: usize = 0;
    while i < lines.len()
        invariant
            0 <= i <= lseq.len(),
            lines.deep_view() == lseq,
            lines@.len() == lseq.len(),
            lseq.len() <= input@.len() + 1,
            total <= 9 * i,
            total_round_score(lseq.take(i as int)) == Some(total as int),
        decreases lseq.len() - i,
    {
        proof {
            assert(lseq.take(i + 1).drop_last() =~= lseq.take(i as int));
            crate::text::lemma_deep_view_index(&lines, i as int);
        }
        let line = &lines[i];
        if line.len() < 3 {
            proof {
                lemma_round_none_sticks(lseq, i + 1);
            }
            return Err(SolveError::Malformed);
        }
        let a = Figure::from_code(line[0]);
        let b = Figure::from_code(line[2]);
        match (a, b) {
            (Ok(fa), Ok(fb)) => {
                total = total + Round(fa, fb).score() as u64;
            },
            _ => {
                proof {
                    lemma_round_none_sticks(lseq, i + 1);
                }
                return Err(SolveError::Malformed);
            },
        }
        i += 1;
    }
    proof {
        assert(lseq.take(lseq.len() as int) =~= lseq);
    }
    Ok(total)
}

/// Sums the scores of all lines read as strategies; `Malformed` as
/// soon as any line is not one.
pub fn part_2(input: &[u8]) -> (r: Result<u64, SolveError>)
    requires
        input@.len() < 0x1000_0000_0000_0000,
    ensures
        match r {
            Ok(n) => total_strategy_score(lines_of(input@)) == Some(n as int),
            Err(e) => e == SolveError::Malformed && total_strategy_score(lines_of(input@))
                is None,
        },
{
    let lines = split_lines(input);
    let ghost lseq = lines_of(input@);
    proof {
        crate::text::lemma_lines_len(input@);
    }
    let mut total: u64 = 0;
    let mut i: usize = 0;
    while i < lines.len()
        invariant
            0 <= i <= lseq.len(),
            lines.deep_view() == lseq,
            lines@.len() == lseq.len(),
            lseq.len() <= input@.len() + 1,
            total <= 9 * i,
            total_strategy_score(lseq.take(i as int)) == Some(total as int),
        decreases lseq.len() - i,
    {
        proof {
            assert(lseq.take(i + 1).drop_last() =~= lseq.take(i as int));
            crate::text::lemma_deep_view_index(&lines, i as int);
        }
        let line = &lines[i];
        if line.len() < 3 {
            proof {
                lemma_strategy_none_sticks(lseq, i + 1);
            }
            return Err(SolveError::Malformed);
        }
        let a = Figure::from_code(line[0]);
        let b = Strategy::from_code(line[2]);
        match (a, b) {
            (Ok(fa), Ok(sb)) => {
                total = total + RoundStrategy(fa, sb).round().score() as u64;
            },
            _ => {
                proof {
                    lemma_strategy_none_sticks(lseq, i + 1);
                }
                return Err(SolveError::Malformed);
            },
        }
        i += 1;
    }
    proof {
        assert(lseq.take(lseq.len() as int) =~= lseq);
    }
    Ok(total)
}

} // verus!
