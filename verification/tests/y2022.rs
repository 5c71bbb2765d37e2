use advent::y2022::day01::max_sum;

fn lines(s: &str) -> Vec<Vec<u8>> {
    s.lines().map(|l| l.as_bytes().to_vec()).collect()
}

#[test]
fn calories_largest_group() {
    let input = lines("1000\n2000\n3000\n\n4000\n\n5000\n6000\n\n7000\n8000\n9000\n\n10000\n");
    // the 24000 group wins; the blank line after it closes the group
    assert_eq!(max_sum(&input), Some(24000));
}

#[test]
fn calories_unfinished_tail_does_not_count() {
    // the fold only banks a group when a separator closes it
    let input = lines("100\n200\n\n500");
    assert_eq!(max_sum(&input), Some(300));
}

#[test]
fn calories_empty_input() {
    let input: Vec<Vec<u8>> = Vec::new();
    assert_eq!(max_sum(&input), Some(0));
}
