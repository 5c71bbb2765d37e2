use advent::y2020::bags::{bags_after_pass, get_bags};
use advent::y2020::boarding::{bsp_to_id, max_seat_id, my_seat};
use advent::y2020::customs::customs_counts;
use advent::y2020::expense::{pair_products, parse_values, triple_products};
use advent::y2020::passport::{count_passports, has_required_fields, is_valid_passport};
use advent::y2020::password::{count_valid_passwords, is_valid_password};
use advent::y2020::trees::{count_trees, paths_product};

fn lines(s: &str) -> Vec<Vec<u8>> {
    s.lines().map(|l| l.as_bytes().to_vec()).collect()
}

fn fields(s: &str) -> Vec<Vec<u8>> {
    s.split_whitespace().map(|f| f.as_bytes().to_vec()).collect()
}

const TREES_EXAMPLE: &str = "..##.......\n#...#...#..\n.#....#..#.\n..#.#...#.#\n.#...##..#.\n..#.##.....\n.#.#.#....#\n.#........#\n#.##...#...\n#...##....#\n.#..#...#.#";

#[test]
fn trees_slope_three_one() {
    let input = lines(TREES_EXAMPLE);
    assert_eq!(count_trees(&input, 11, 3, 1), 7);
}

#[test]
fn trees_all_slopes() {
    let input = lines(TREES_EXAMPLE);
    assert_eq!(count_trees(&input, 11, 1, 1), 2);
    assert_eq!(count_trees(&input, 11, 5, 1), 3);
    assert_eq!(count_trees(&input, 11, 7, 1), 4);
    assert_eq!(count_trees(&input, 11, 1, 2), 2);
    assert_eq!(paths_product(&input, 11), Some(336));
}

#[test]
fn passwords_example() {
    let input = lines("1-3 a: abcde\n1-3 b: cdefg\n2-9 c: ccccccccc");
    assert_eq!(count_valid_passwords(&input), Some((2, 1)));
}

#[test]
fn password_line_policies() {
    let line = b"1-3 a: abcde".to_vec();
    assert_eq!(is_valid_password(&line), Some((1, 1)));
    let line = b"2-9 c: ccccccccc".to_vec();
    assert_eq!(is_valid_password(&line), Some((1, 0)));
}

#[test]
fn password_line_malformed() {
    let line = b"13 a: abcde".to_vec();
    assert_eq!(is_valid_password(&line), None);
}

#[test]
fn passport_required_fields() {
    let p = fields(
        "ecl:gry pid:860033327 eyr:2020 hcl:#fffffd byr:1937 iyr:2017 cid:147 hgt:183cm",
    );
    assert!(has_required_fields(&p));
    let missing_hgt = fields("iyr:2013 ecl:amb cid:350 eyr:2023 pid:028048884 hcl:#cfa07d byr:1929");
    assert!(!has_required_fields(&missing_hgt));
}

#[test]
fn passport_field_checks() {
    let valid = fields(
        "pid:087499704 hgt:74in ecl:grn iyr:2012 eyr:2030 byr:1980 hcl:#623a2f",
    );
    assert!(is_valid_passport(&valid));
    let invalid = fields("eyr:1972 cid:100 hcl:#18171d ecl:amb hgt:170 pid:186cm iyr:2018 byr:1926");
    assert!(!is_valid_passport(&invalid));
}

#[test]
fn passport_counts_groups() {
    let input = lines(
        "ecl:gry pid:860033327 eyr:2020 hcl:#fffffd\nbyr:1937 iyr:2017 cid:147 hgt:183cm\n\niyr:2013 ecl:amb cid:350 eyr:2023 pid:028048884\nhcl:#cfa07d byr:1929\n\nhcl:#ae17e1 iyr:2013\neyr:2024\necl:brn pid:760753108 byr:1931\nhgt:179cm\n\nhcl:#cfa07d eyr:2025 pid:166559648\niyr:2011 ecl:brn hgt:59in",
    );
    // two passports carry all required fields, and both pass the checks
    assert_eq!(count_passports(&input), (2, 2));
}

#[test]
fn boarding_examples() {
    assert_eq!(bsp_to_id(&b"FBFBBFFRLR".to_vec()), Some(357));
    assert_eq!(bsp_to_id(&b"BFFFBBFRRR".to_vec()), Some(567));
    assert_eq!(bsp_to_id(&b"FFFBBBFRRR".to_vec()), Some(119));
    assert_eq!(bsp_to_id(&b"BBFFBBFRLL".to_vec()), Some(820));
    assert_eq!(bsp_to_id(&b"short".to_vec()), None);
}

#[test]
fn boarding_max_and_seat() {
    let input = lines("BFFFBBFRRR\nFFFBBBFRRR\nBBFFBBFRLL");
    assert_eq!(max_seat_id(&input), Some(820));
    // a single pass has no enclosed gap
    let input = lines("BFFFBBFRRR");
    assert_eq!(my_seat(&input), None);
}

#[test]
fn boarding_finds_gap() {
    // ids 5, 6 and 8 taken: seat 7 is ours
    let input = lines("FFFFFFFRLR\nFFFFFFFRRF\nFFFFFFBFFF");
    assert_eq!(my_seat(&input), Some(7));
}

#[test]
fn customs_example() {
    let input = lines("abc\n\na\nb\nc\n\nab\nac\n\na\na\na\na\n\nb");
    // anyone: 3 + 3 + 3 + 1 + 1; everyone: 3 + 0 + 1 + 1 + 1
    assert_eq!(customs_counts(&input), Some((11, 6)));
}

#[test]
fn expense_pair_and_triple() {
    let vals = parse_values(&lines("1721\n979\n366\n299\n675\n1456"));
    assert_eq!(pair_products(&vals, 2020), vec![514579]);
    assert_eq!(triple_products(&vals, 2020), vec![241861950]);
}

#[test]
fn expense_skips_bad_lines() {
    let vals = parse_values(&lines("12\nnope\n 34 \n5 6"));
    assert_eq!(vals, vec![12, 34]);
}

#[test]
fn bags_rule_parses() {
    let line = b"light red bags contain 1 bright white bag, 2 muted yellow bags.".to_vec();
    let (parent, kids) = get_bags(&line).expect("rule should parse");
    assert_eq!(parent, b"light red".to_vec());
    assert_eq!(kids, vec![b"bright white".to_vec(), b"muted yellow".to_vec()]);
}

#[test]
fn bags_single_pass() {
    let input = lines(
        "bright white bags contain 1 shiny gold bag.\nlight red bags contain 1 bright white bag.",
    );
    let set = bags_after_pass(&input);
    // the pass meets bright white first, then light red through it
    assert_eq!(
        set,
        vec![b"shiny gold".to_vec(), b"bright white".to_vec(), b"light red".to_vec()]
    );
}
