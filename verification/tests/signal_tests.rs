use puzzles::signal::search_packet_start;
use puzzles::SolveError;

#[test]
fn test_search_packet_start() {
    assert_eq!(search_packet_start(b"bvwbjplbgvbhsrlpgdmjqwftvncz", 4), Ok(5));
    assert_eq!(search_packet_start(b"nppdvjthqldpwncqszvftbrmjlhg", 4), Ok(6));
    assert_eq!(
        search_packet_start(b"nznrnfrfntjfmvfwmzdfjlvtqnbhcprsg", 4),
        Ok(10)
    );
    assert_eq!(
        search_packet_start(b"zcfzfwzzqfrljwzlrfnpqdbhtmscgvjw", 4),
        Ok(11)
    );
}

#[test]
fn search_with_longer_marker() {
    assert_eq!(
        search_packet_start(b"mjqjpqmgbljsphdztnvjfqwrcgsmlb", 14),
        Ok(19)
    );
}

#[test]
fn search_reports_not_found() {
    assert_eq!(search_packet_start(b"aaaaaaa", 2), Err(SolveError::NotFound));
    assert_eq!(search_packet_start(b"abc", 4), Err(SolveError::NotFound));
    assert_eq!(search_packet_start(b"", 1), Err(SolveError::NotFound));
}

#[test]
fn search_returns_first_qualifying_end() {
    // the first window of two distinct bytes ends at index 3
    assert_eq!(search_packet_start(b"aab", 2), Ok(3));
    // a whole input of distinct bytes qualifies immediately
    assert_eq!(search_packet_start(b"abcd", 4), Ok(4));
}
