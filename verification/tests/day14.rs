use advent::y2023::day14::{solve_part1, solve_part2, Platform};

fn lines(s: &str) -> Vec<Vec<u8>> {
    s.lines().map(|l| l.as_bytes().to_vec()).collect()
}

const EXAMPLE: &str = "O....#....\nO.OO#....#\n.....##...\nOO.#O....O\n.O.....O#.\nO.#..O.#.#\n..O..#O..O\n.......O..\n#....###..\n#OO..#....";

#[test]
fn day14_example1() {
    let answer = solve_part1(&lines(EXAMPLE)).expect("failed to get a solution");
    assert_eq!(answer, 136);
}

#[test]
fn day14_example2() {
    let answer = solve_part2(&lines(EXAMPLE)).expect("failed to get a solution");
    assert_eq!(answer, 64);
}

#[test]
fn day14_tilt_rolls_north() {
    let mut p = Platform::from(&lines("..\nO.\n#.\nO.")).expect("platform should parse");
    p.tilt();
    assert_eq!(p.map, b"O.\n..\n#.\nO.".to_vec().into_iter().filter(|&b| b != b'\n').collect::<Vec<u8>>());
}

#[test]
fn day14_weigh_counts_rows() {
    // two rocks on the top row of four weigh four each
    let p = Platform::from(&lines("OO\n..\n..\n..")).expect("platform should parse");
    assert_eq!(p.weigh(), 8);
}

#[test]
fn day14_ragged_rejected() {
    assert_eq!(solve_part1(&lines("O.\n.")), None);
}
