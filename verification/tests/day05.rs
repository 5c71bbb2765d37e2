use advent::y2023::day05::{solve_part1, solve_part2};

fn lines(s: &str) -> Vec<Vec<u8>> {
    s.lines().map(|l| l.as_bytes().to_vec()).collect()
}

const EXAMPLE: &str = "seeds: 79 14 55 13\n\nseed-to-soil map:\n50 98 2\n52 50 48\n\nsoil-to-fertilizer map:\n0 15 37\n37 52 2\n39 0 15\n\nfertilizer-to-water map:\n49 53 8\n0 11 42\n42 0 7\n57 7 4\n\nwater-to-light map:\n88 18 7\n18 25 70\n\nlight-to-temperature map:\n45 77 23\n81 45 19\n68 64 13\n\ntemperature-to-humidity map:\n0 69 1\n1 0 69\n\nhumidity-to-location map:\n60 56 37\n56 93 4";

#[test]
fn day05_example1() {
    let input = lines(EXAMPLE);
    let answer = solve_part1(&input).expect("failed to get a solution");
    assert_eq!(answer, 35);
}

#[test]
fn day05_example2() {
    let input = lines(EXAMPLE);
    let answer = solve_part2(&input).expect("failed to get a solution");
    assert_eq!(answer, 46);
}

#[test]
fn day05_no_seeds() {
    // a seeds line without numbers has no answer
    let input = lines("seeds:\n\nseed-to-soil map:\n50 98 2");
    assert_eq!(solve_part1(&input), None);
}

#[test]
fn day05_odd_seed_count() {
    // part two needs an even number of seeds
    let input = lines("seeds: 1 2 3\n\nseed-to-soil map:\n50 98 2");
    assert_eq!(solve_part2(&input), None);
}

#[test]
fn day05_bad_map_line() {
    // a translation line must hold exactly three numbers
    let input = lines("seeds: 1 2\n\nseed-to-soil map:\n50 98");
    assert_eq!(solve_part1(&input), None);
}

#[test]
fn day05_ambiguous_tables_rejected() {
    // two ranges shift onto the same values, so the reverse pass
    // cannot tell the breakpoints' preimages apart: no answer
    let input = lines(
        "seeds: 21 6\n\na map:\n20 0 10\n20 20 10\n\nb map:\n0 25 5\n\nc map:\n\nd map:\n\ne map:\n\nf map:\n\ng map:",
    );
    assert_eq!(solve_part2(&input), None);
}

#[test]
fn day05_empty_range_rejected() {
    // a (start, length) pair with length zero holds no seed
    let input = lines("seeds: 5 0\n\na map:\n\nb map:\n\nc map:\n\nd map:\n\ne map:\n\nf map:\n\ng map:");
    assert_eq!(solve_part2(&input), None);
}

#[test]
fn day05_range_minimum() {
    // the least location inside the range 10..15 is seed 12's: the
    // table sends 12..20 down to 0..8 and leaves the rest alone
    let input = lines(
        "seeds: 10 5\n\na map:\n0 12 8\n\nb map:\n\nc map:\n\nd map:\n\ne map:\n\nf map:\n\ng map:",
    );
    assert_eq!(solve_part2(&input), Some(0));
}

#[test]
fn day05_identity_when_unmapped() {
    // a seed outside every range keeps its value
    let input = lines("seeds: 7\n\nseed-to-soil map:\n50 98 2");
    assert_eq!(solve_part1(&input), Some(7));
}
