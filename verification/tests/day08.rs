use advent::y2023::day08::{solve_part1, solve_part2};

fn lines(s: &str) -> Vec<Vec<u8>> {
    s.lines().map(|l| l.as_bytes().to_vec()).collect()
}

#[test]
fn day08_example1() {
    let input = lines(
        "RL\n\nAAA = (BBB, CCC)\nBBB = (DDD, EEE)\nCCC = (ZZZ, GGG)\nDDD = (DDD, DDD)\nEEE = (EEE, EEE)\nGGG = (GGG, GGG)\nZZZ = (ZZZ, ZZZ)",
    );
    let answer = solve_part1(&input).expect("failed to get a solution");
    assert_eq!(answer, 2);
}

#[test]
fn day08_example2() {
    let input = lines("LLR\n\nAAA = (BBB, BBB)\nBBB = (AAA, ZZZ)\nZZZ = (ZZZ, ZZZ)");
    let answer = solve_part1(&input).expect("failed to get a solution");
    assert_eq!(answer, 6);
}

#[test]
fn day08_example3() {
    let input = lines(
        "LR\n\n11A = (11B, XXX)\n11B = (XXX, 11Z)\n11Z = (11B, XXX)\n22A = (22B, XXX)\n22B = (22C, 22C)\n22C = (22Z, 22Z)\n22Z = (22B, 22B)\nXXX = (XXX, XXX)",
    );
    let answer = solve_part2(&input).expect("failed to get a solution");
    assert_eq!(answer, 6);
}

#[test]
fn day08_later_entry_wins() {
    // a node named twice takes its later entry
    let input = lines("RL\n\nAAA = (BBB, BBB)\nAAA = (ZZZ, ZZZ)\nBBB = (XXX, XXX)\nZZZ = (ZZZ, ZZZ)\nXXX = (XXX, XXX)");
    assert_eq!(solve_part1(&input), Some(1));
}

#[test]
fn day08_missing_node() {
    // the walk leaves the map: no answer
    let input = lines("RL\n\nAAA = (BBB, CCC)");
    assert_eq!(solve_part1(&input), None);
}

#[test]
fn day08_bad_turn_line() {
    let input = lines("RX\n\nAAA = (ZZZ, ZZZ)");
    assert_eq!(solve_part1(&input), None);
}
