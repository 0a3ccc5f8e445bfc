use puzzles::rucksack::chunks_of_3;
use puzzles::rucksack::get_badge;
use puzzles::rucksack::get_repeats;
use puzzles::rucksack::part_1;
use puzzles::rucksack::part_2;
use puzzles::rucksack::priority;
use puzzles::rucksack::split_half;
use puzzles::SolveError;

const INPUT: &str = "vJrwpWtwJgWrhcsFMMfFFhFp
jqHRNqRjqzjGDLGLrsFMfFZSrLrFZsSL
PmmdzqPrVvPwwTWBwg
wMqvLMZHhHMvwLHjbvcjnnSBnvTQFn
ttgJtRGJQctTZtZT
CrZsJsPPZsGzwwsLwLmpwMDw";

#[test]
fn test_priority() {
    assert_eq!(priority(b'a'), Ok(1));
    assert_eq!(priority(b'z'), Ok(26));
    assert_eq!(priority(b'A'), Ok(27));
    assert_eq!(priority(b'Z'), Ok(52));
}

#[test]
fn test_split_half() {
    let halves = split_half(b"abcd").unwrap();
    assert_eq!(halves.0, b"ab");
    assert_eq!(halves.1, b"cd");
}

#[test]
fn split_half_rejects_odd_length() {
    assert_eq!(
        split_half(b"abcde").map(|_| ()),
        Err(SolveError::Malformed)
    );
}

#[test]
fn test_repeats() {
    assert_eq!(get_repeats(b"abca"), Ok(vec![b'a']));
}

#[test]
fn day3_test_part_1() {
    assert_eq!(part_1(INPUT.as_bytes()), Ok(157));
}

#[test]
fn test_chunking() {
    let chunks = chunks_of_3(INPUT.as_bytes()).unwrap();
    let want: Vec<Vec<Vec<u8>>> = vec![
        vec![
            b"vJrwpWtwJgWrhcsFMMfFFhFp".to_vec(),
            b"jqHRNqRjqzjGDLGLrsFMfFZSrLrFZsSL".to_vec(),
            b"PmmdzqPrVvPwwTWBwg".to_vec(),
        ],
        vec![
            b"wMqvLMZHhHMvwLHjbvcjnnSBnvTQFn".to_vec(),
            b"ttgJtRGJQctTZtZT".to_vec(),
            b"CrZsJsPPZsGzwwsLwLmpwMDw".to_vec(),
        ],
    ];
    assert_eq!(chunks, want);
}

#[test]
fn test_get_badge() {
    assert_eq!(get_badge(b"abc", b"adb", b"abe"), Ok(b'b'));
}

#[test]
fn day3_test_part_2() {
    assert_eq!(part_2(INPUT.as_bytes()), Ok(70));
}

#[test]
fn badge_not_found_when_lines_share_nothing() {
    assert_eq!(get_badge(b"abc", b"def", b"ghi"), Err(SolveError::NotFound));
}

#[test]
fn chunking_rejects_leftover_lines() {
    assert_eq!(
        chunks_of_3(b"one\ntwo").map(|_| ()),
        Err(SolveError::Malformed)
    );
}

#[test]
fn part_1_rejects_non_letter_repeat() {
    // both halves share '1', which has no priority
    assert_eq!(part_1(b"1a1b"), Err(SolveError::Malformed));
}

#[test]
fn repeats_keep_second_half_order_without_duplicates() {
    // halves "abccb" and "cacbc": common letters in order of first
    // occurrence in the second half
    assert_eq!(get_repeats(b"abccbcacbc"), Ok(vec![b'c', b'a', b'b']));
}
