use advent::y2023::day13::{solve_part1, solve_part2};

fn lines(s: &str) -> Vec<Vec<u8>> {
    s.lines().map(|l| l.as_bytes().to_vec()).collect()
}

const FIRST: &str = "#.##..##.\n..#.##.#.\n##......#\n##......#\n..#.##.#.\n..##..##.\n#.#.##.#.";
const SECOND: &str = "#...##..#\n#....#..#\n..##..###\n#####.##.\n#####.##.\n..##..###\n#....#..#";

#[test]
fn day13_first_pattern() {
    let answer = solve_part1(&lines(FIRST)).expect("failed to get a solution");
    assert_eq!(answer, 5);
}

#[test]
fn day13_second_pattern() {
    let answer = solve_part1(&lines(SECOND)).expect("failed to get a solution");
    assert_eq!(answer, 400);
}

#[test]
fn day13_both_patterns() {
    let input = lines(&format!("{FIRST}\n\n{SECOND}"));
    let answer = solve_part1(&input).expect("failed to get a solution");
    assert_eq!(answer, 405);
}

#[test]
fn day13_smudged_first() {
    let answer = solve_part2(&lines(FIRST)).expect("failed to get a solution");
    assert_eq!(answer, 300);
}

#[test]
fn day13_smudged_second() {
    let answer = solve_part2(&lines(SECOND)).expect("failed to get a solution");
    assert_eq!(answer, 100);
}

#[test]
fn day13_ragged_rejected() {
    let input = lines("##.\n##");
    assert_eq!(solve_part1(&input), None);
}
