use puzzles::calories::fattest_elves;
use puzzles::calories::top_k_total;
use puzzles::calories::Elf;
use puzzles::SolveError;

const INPUT: &str = "1000
2000
3000

4000

5000
6000

7000
8000
9000

10000";

#[test]
fn total_calories_adds_the_entries() {
    let elf = Elf { calories: vec![1, 2, 3] };
    assert_eq!(elf.total_calories(), 6);
    let empty = Elf { calories: vec![] };
    assert_eq!(empty.total_calories(), 0);
}

#[test]
fn fattest_elves_sorts_descending() {
    let elves = fattest_elves(INPUT.as_bytes()).unwrap();
    assert_eq!(elves.len(), 5);
    assert_eq!(elves[0].total_calories(), 24000);
    assert_eq!(elves[1].total_calories(), 11000);
    assert_eq!(elves[2].total_calories(), 10000);
    assert_eq!(elves[3].total_calories(), 6000);
    assert_eq!(elves[4].total_calories(), 4000);
}

#[test]
fn top_sums_match_the_fixture() {
    assert_eq!(top_k_total(INPUT.as_bytes(), 1), Ok(24000));
    assert_eq!(top_k_total(INPUT.as_bytes(), 3), Ok(45000));
}

#[test]
fn top_sum_with_more_k_than_groups_takes_all() {
    assert_eq!(top_k_total(b"1\n\n2", 5), Ok(3));
    assert_eq!(top_k_total(b"", 3), Ok(0));
}

#[test]
fn equal_totals_keep_their_input_order() {
    // three groups with the same total: a stable sort keeps them as
    // they came
    let elves = fattest_elves(b"5\n\n2\n3\n\n5").unwrap();
    assert_eq!(elves.len(), 3);
    assert_eq!(elves[0].calories, vec![5]);
    assert_eq!(elves[1].calories, vec![2, 3]);
    assert_eq!(elves[2].calories, vec![5]);
}

#[test]
fn non_numeric_line_is_malformed() {
    assert_eq!(
        fattest_elves(b"12\nabc").map(|_| ()),
        Err(SolveError::Malformed)
    );
    assert_eq!(top_k_total(b"1\n\n-2", 1), Err(SolveError::Malformed));
}

#[test]
fn blank_groups_are_dropped() {
    let elves = fattest_elves(b"\n\n7\n\n\n").unwrap();
    assert_eq!(elves.len(), 1);
    assert_eq!(elves[0].calories, vec![7]);
}
