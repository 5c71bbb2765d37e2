use advent::y2023::day12::{count_fits, solve_part1, solve_part2};

fn lines(s: &str) -> Vec<Vec<u8>> {
    s.lines().map(|l| l.as_bytes().to_vec()).collect()
}

const EXAMPLE: &str = "???.### 1,1,3\n.??..??...?##. 1,1,3\n?#?#?#?#?#?#?#? 1,3,1,6\n????.#...#... 4,1,1\n????.######..#####. 1,6,5\n?###???????? 3,2,1";

#[test]
fn day12_example1() {
    let answer = solve_part1(&lines(EXAMPLE)).expect("failed to get a solution");
    assert_eq!(answer, 21);
}

#[test]
fn day12_example2() {
    let answer = solve_part2(&lines(EXAMPLE)).expect("failed to get a solution");
    assert_eq!(answer, 525152);
}

#[test]
fn day12_single_rows() {
    assert_eq!(count_fits(&b"???.###".to_vec(), &vec![1, 1, 3]), Some(1));
    assert_eq!(count_fits(&b".??..??...?##.".to_vec(), &vec![1, 1, 3]), Some(4));
    assert_eq!(count_fits(&b"?###????????".to_vec(), &vec![3, 2, 1]), Some(10));
}

#[test]
fn day12_no_fit() {
    assert_eq!(count_fits(&b"..".to_vec(), &vec![3]), Some(0));
}

#[test]
fn day12_missing_groups_token() {
    let input = lines("???.###");
    assert_eq!(solve_part1(&input), None);
}
