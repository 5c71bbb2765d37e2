use advent::y2023::day11::{solve_part1, solve_part2};

fn lines(s: &str) -> Vec<Vec<u8>> {
    s.lines().map(|l| l.as_bytes().to_vec()).collect()
}

const EXAMPLE: &str = "...#......\n.......#..\n#.........\n..........\n......#...\n.#........\n.........#\n..........\n.......#..\n#...#.....";

#[test]
fn day11_example1() {
    let answer = solve_part1(&lines(EXAMPLE)).expect("failed to get a solution");
    assert_eq!(answer, 374);
}

#[test]
fn day11_example2() {
    let answer = solve_part2(&lines(EXAMPLE), 10).expect("failed to get a solution");
    assert_eq!(answer, 1030);
}

#[test]
fn day11_example3() {
    let answer = solve_part2(&lines(EXAMPLE), 100).expect("failed to get a solution");
    assert_eq!(answer, 8410);
}

#[test]
fn day11_two_galaxies() {
    // distance 2, plus one empty row and one empty column between
    let input = lines("#..\n...\n..#");
    assert_eq!(solve_part1(&input), Some(6));
}

#[test]
fn day11_zero_factor_rejected() {
    let input = lines("#.#");
    assert_eq!(solve_part2(&input, 0), None);
}
