use advent::y2023::day06::{distance, solve_part1, solve_part2, winning_waits};

fn lines(s: &str) -> Vec<Vec<u8>> {
    s.lines().map(|l| l.as_bytes().to_vec()).collect()
}

const EXAMPLE: &str = "Time:      7  15   30\nDistance:  9  40  200";

#[test]
fn day06_example1() {
    let input = lines(EXAMPLE);
    let answer = solve_part1(&input).expect("failed to get a solution");
    assert_eq!(answer, 288);
}

#[test]
fn day06_example2() {
    let input = lines(EXAMPLE);
    let answer = solve_part2(&input).expect("failed to get a solution");
    assert_eq!(answer, 71503);
}

#[test]
fn day06_distance_formula() {
    // hold 2 of 7 milliseconds: 2 * (7 - 2) = 10
    assert_eq!(distance(2, 7), 10);
    assert_eq!(distance(0, 7), 0);
    assert_eq!(distance(7, 7), 0);
}

#[test]
fn day06_winning_waits_first_race() {
    // holds of 2 through 5 beat the record of 9 in a 7 millisecond race
    assert_eq!(winning_waits(7, 9), 4);
}

#[test]
fn day06_missing_line() {
    let input = lines("Time: 7");
    assert_eq!(solve_part1(&input), None);
}
