use advent::y2023::day01::{solve_part1, solve_part2};

fn lines(s: &str) -> Vec<Vec<u8>> {
    s.lines().map(|l| l.as_bytes().to_vec()).collect()
}

#[test]
fn day01_example1() {
    let input = lines("1abc2\npqr3stu8vwx\na1b2c3d4e5f\ntreb7uchet");
    let answer = solve_part1(&input).expect("failed to get a solution");
    assert_eq!(answer, 142);
}

#[test]
fn day01_example2() {
    let input = lines(
        "two1nine\neightwothree\nabcone2threexyz\nxtwone3four\n4nineeightseven2\nzoneight234\n7pqrstsixteen",
    );
    let answer = solve_part2(&input).expect("failed to get a solution");
    assert_eq!(answer, 281);
}

#[test]
fn day01_no_digits_line() {
    // a line without digits contributes nothing
    let input = lines("abc\n1abc2");
    assert_eq!(solve_part1(&input), Some(12));
}

#[test]
fn day01_overlapping_words() {
    // the last spelled digit may overlap the one before it
    let input = lines("eightwo");
    assert_eq!(solve_part2(&input), Some(82));
}

#[test]
fn day01_empty_input() {
    let input: Vec<Vec<u8>> = Vec::new();
    assert_eq!(solve_part1(&input), Some(0));
    assert_eq!(solve_part2(&input), Some(0));
}
