use advent::y2023::day07::{solve_part1, solve_part2, Cards, Hand, RuleSet, Strength};

fn lines(s: &str) -> Vec<Vec<u8>> {
    s.lines().map(|l| l.as_bytes().to_vec()).collect()
}

const EXAMPLE: &str = "32T3K 765\nT55J5 684\nKK677 28\nKTJJT 220\nQQQJA 483";

#[test]
fn day07_example1() {
    let answer = solve_part1(&lines(EXAMPLE)).expect("failed to get a solution");
    assert_eq!(answer, 6440);
}

#[test]
fn day07_example2() {
    let answer = solve_part2(&lines(EXAMPLE)).expect("failed to get a solution");
    assert_eq!(answer, 5905);
}

#[test]
fn day07_strength_standard() {
    assert_eq!(Hand::strength(&Cards(*b"AAAAA"), RuleSet::Standard), Strength::FiveKind);
    assert_eq!(Hand::strength(&Cards(*b"AA8AA"), RuleSet::Standard), Strength::FourKind);
    assert_eq!(Hand::strength(&Cards(*b"23332"), RuleSet::Standard), Strength::FullHouse);
    assert_eq!(Hand::strength(&Cards(*b"TTT98"), RuleSet::Standard), Strength::ThreeKind);
    assert_eq!(Hand::strength(&Cards(*b"23432"), RuleSet::Standard), Strength::TwoPair);
    assert_eq!(Hand::strength(&Cards(*b"A23A4"), RuleSet::Standard), Strength::OnePair);
    assert_eq!(Hand::strength(&Cards(*b"23456"), RuleSet::Standard), Strength::HighCard);
}

#[test]
fn day07_strength_joker() {
    // jokers join the largest group
    assert_eq!(Hand::strength(&Cards(*b"QJJQ2"), RuleSet::Joker), Strength::FourKind);
    assert_eq!(Hand::strength(&Cards(*b"JJJJJ"), RuleSet::Joker), Strength::FiveKind);
    assert_eq!(Hand::strength(&Cards(*b"32T3K"), RuleSet::Joker), Strength::OnePair);
}

#[test]
fn day07_new_parses_line() {
    let line = b"32T3K 765".to_vec();
    let h = Hand::new(&line, RuleSet::Standard).expect("hand should parse");
    assert_eq!(h.bet, 765);
    assert_eq!(h.cards.0, *b"32T3K");
    assert_eq!(h.strength, Strength::OnePair);
}

#[test]
fn day07_new_rejects_short_line() {
    let line = b"32T3K".to_vec();
    assert!(Hand::new(&line, RuleSet::Standard).is_none());
}
