use advent::y2023::day10::{solve_part1, solve_part2};

fn lines(s: &str) -> Vec<Vec<u8>> {
    s.lines().map(|l| l.as_bytes().to_vec()).collect()
}

#[test]
fn day10_example1() {
    let input = lines(".....\n.S-7.\n.|.|.\n.L-J.\n.....");
    let answer = solve_part1(&input).expect("failed to get a solution");
    assert_eq!(answer, 4);
}

#[test]
fn day10_example2() {
    let input = lines("-L|F7\n7S-7|\nL|7||\n-L-J|\nL|-JF");
    let answer = solve_part1(&input).expect("failed to get a solution");
    assert_eq!(answer, 4);
}

#[test]
fn day10_example3() {
    let input = lines("..F7.\n.FJ|.\nSJ.L7\n|F--J\nLJ...");
    let answer = solve_part1(&input).expect("failed to get a solution");
    assert_eq!(answer, 8);
}

#[test]
fn day10_enclosed_simple() {
    let input = lines(
        "...........\n.S-------7.\n.|F-----7|.\n.||.....||.\n.||.....||.\n.|L-7.F-J|.\n.|..|.|..|.\n.L--J.L--J.\n...........",
    );
    let answer = solve_part2(&input).expect("failed to get a solution");
    assert_eq!(answer, 4);
}

#[test]
fn day10_enclosed_squeeze() {
    let input = lines(
        "..........\n.S------7.\n.|F----7|.\n.||....||.\n.||....||.\n.|L-7F-J|.\n.|..||..|.\n.L--JL--J.\n..........",
    );
    let answer = solve_part2(&input).expect("failed to get a solution");
    assert_eq!(answer, 4);
}

#[test]
fn day10_enclosed_larger() {
    let input = lines(
        ".F----7F7F7F7F-7....\n.|F--7||||||||FJ....\n.||.FJ||||||||L7....\nFJL7L7LJLJ||LJ.L-7..\nL--J.L7...LJS7F-7L7.\n....F-J..F7FJ|L7L7L7\n....L7.F7||L7|.L7L7|\n.....|FJLJ|FJ|F7|.LJ\n....FJL-7.||.||||...\n....L---J.LJ.LJLJ...",
    );
    let answer = solve_part2(&input).expect("failed to get a solution");
    assert_eq!(answer, 8);
}

#[test]
fn day10_two_starts_rejected() {
    let input = lines("S7\nSJ");
    assert_eq!(solve_part1(&input), None);
}

#[test]
fn day10_bad_piece_rejected() {
    let input = lines("S7\nQJ");
    assert_eq!(solve_part1(&input), None);
}
