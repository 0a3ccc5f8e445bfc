use puzzles::rps::Figure;
use puzzles::rps::Round;
use puzzles::rps::RoundStrategy;
use puzzles::rps::Strategy;
use puzzles::rps::part_1;
use puzzles::rps::part_2;
use puzzles::SolveError;

#[test]
fn test_score() {
    assert_eq!(Round(Figure::Rock, Figure::Paper).score(), 8);
    assert_eq!(Round(Figure::Paper, Figure::Rock).score(), 1);
    assert_eq!(Round(Figure::Scissors, Figure::Scissors).score(), 6);
}

#[test]
fn test_char_to_figure() {
    assert_eq!(Figure::from_code(b'A'), Ok(Figure::Rock));
    assert_eq!(Figure::from_code(b'B'), Ok(Figure::Paper));
    assert_eq!(Figure::from_code(b'C'), Ok(Figure::Scissors));

    assert_eq!(Figure::from_code(b'X'), Ok(Figure::Rock));
    assert_eq!(Figure::from_code(b'Y'), Ok(Figure::Paper));
    assert_eq!(Figure::from_code(b'Z'), Ok(Figure::Scissors));
}

#[test]
fn test_figure_wins_against() {
    assert_eq!(Figure::Rock.wins_against(), Figure::Scissors);
    assert_eq!(Figure::Paper.wins_against(), Figure::Rock);
    assert_eq!(Figure::Scissors.wins_against(), Figure::Paper);
}

#[test]
fn test_figure_loses_against() {
    assert_eq!(Figure::Rock.loses_against(), Figure::Paper);
    assert_eq!(Figure::Paper.loses_against(), Figure::Scissors);
    assert_eq!(Figure::Scissors.loses_against(), Figure::Rock);
}

#[test]
fn test_round_strategy_from() {
    assert_eq!(
        RoundStrategy::parse(b"A X"),
        Ok(RoundStrategy(Figure::Rock, Strategy::Lose))
    );
    assert_eq!(
        RoundStrategy::parse(b"B Y"),
        Ok(RoundStrategy(Figure::Paper, Strategy::Draw))
    );
    assert_eq!(
        RoundStrategy::parse(b"C Z"),
        Ok(RoundStrategy(Figure::Scissors, Strategy::Win))
    );
}

#[test]
fn test_strategy_to_round() {
    assert_eq!(
        RoundStrategy(Figure::Rock, Strategy::Lose).round(),
        Round(Figure::Rock, Figure::Scissors)
    );
    assert_eq!(
        RoundStrategy(Figure::Paper, Strategy::Draw).round(),
        Round(Figure::Paper, Figure::Paper)
    );
    assert_eq!(
        RoundStrategy(Figure::Scissors, Strategy::Win).round(),
        Round(Figure::Scissors, Figure::Rock)
    );
}

#[test]
fn day2_test_part_1() {
    let input = "A Y\nB X\nC Z";
    assert_eq!(part_1(input.as_bytes()), Ok(15));
}

#[test]
fn day2_test_part_2() {
    let input = "A Y\nB X\nC Z";
    assert_eq!(part_2(input.as_bytes()), Ok(12));
}

#[test]
fn round_parse_rejects_unknown_codes() {
    assert_eq!(Round::parse(b"D X"), Err(SolveError::Malformed));
    assert_eq!(Round::parse(b"A Q"), Err(SolveError::Malformed));
    assert_eq!(Round::parse(b"A"), Err(SolveError::Malformed));
    assert_eq!(Figure::from_code(b'q'), Err(SolveError::Malformed));
    assert_eq!(Strategy::from_code(b'A'), Err(SolveError::Malformed));
}

#[test]
fn part_1_rejects_short_line() {
    assert_eq!(part_1(b"A Y\nB"), Err(SolveError::Malformed));
    assert_eq!(part_2(b"Q Y"), Err(SolveError::Malformed));
}

#[test]
fn part_1_empty_input_scores_zero() {
    assert_eq!(part_1(b""), Ok(0));
    assert_eq!(part_2(b""), Ok(0));
}
