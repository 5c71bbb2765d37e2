//! Boat races: holding the button for `w` of the race's `t`
//! milliseconds makes the boat travel `w * (t - w)` millimetres.  Part
//! one multiplies together, over the races listed in the two input
//! lines, the number of hold times beating each record.  Part two reads
//! each line as one big number by ignoring the spaces.

use vstd::prelude::*;
use crate::text::{
    all_digits, colon_idx, colon_tokens, digits_val, find_byte, has_colon, is_space, nums_of,
    nums_ok, parse_nums, parse_u64, subvec, tokens_after_colon, views_of, lemma_colon_idx,
};

verus! {

/// Largest accepted race duration: the count loop stays fast and the
/// travelled distance fits easily in `i64`.
pub const TIME_MAX: u64 = 0x8000_0000;

/// Largest accepted record distance.
pub const RECORD_MAX: u64 = 0x4000_0000_0000_0000;

/// How far the boat travels when held for `wait` of `time`
/// milliseconds; never negative.
pub open spec fn dist_spec(wait: int, time: int) -> int {
    if wait * (time - wait) > 0 {
        wait * (time - wait)
    } else {
        0
    }
}

/// The number of hold times in `0 ..= w` whose distance beats the
/// record.
pub open spec fn wins_up_to(time: int, record: int, w: int) -> int
    decreases w + 1,
{
    if w < 0 {
        0
    } else {
        wins_up_to(time, record, w - 1) + if dist_spec(w, time) > record {
            1int
        } else {
            0int
        }
    }
}

/// The number of ways to beat the record: hold times from zero to the
/// whole race.
pub open spec fn winning_count(time: int, record: int) -> int {
    wins_up_to(time, record, time)
}

/// How far the boat travels when held for `wait` milliseconds.
pub fn distance(wait: i64, total_time: i64) -> (d: i64)
    requires
        0 <= wait <= 0x8000_0000,
        0 <= total_time <= 0x8000_0000,
    ensures
        d == dist_spec(wait as int, total_time as int),
        0 <= d <= 0x4000_0000_0000_0000,
{
    proof {
        assert(-0x4000_0000_0000_0000 <= wait * (total_time - wait) <= 0x4000_0000_0000_0000)
            by (nonlinear_arith)
            requires
                0 <= wait <= 0x8000_0000,
                0 <= total_time <= 0x8000_0000,
        ;
    }
    let d = wait * (total_time - wait);
    if d > 0 {
        d
    } else {
        0
    }
}

/// Counts the hold times that beat the record.
#[verifier::loop_isolation(false)]
pub fn winning_waits(time: i64, record: i64) -> (n: i64)
    requires
        0 <= time <= 0x8000_0000,
        0 <= record,
    ensures
        n == winning_count(time as int, record as int),
        0 <= n <= time + 1,
{
    let mut n: i64 = 0;
    let mut w: i64 = 0;
    proof {
        assert(wins_up_to(time as int, record as int, -1) == 0);
    }
    while w <= time
        invariant
            0 <= w <= time + 1,
            n == wins_up_to(time as int, record as int, w - 1),
            0 <= n <= w,
        decreases time + 1 - w,
    {
        let d = distance(w, time);
        if d > record {
            n = n + 1;
        }
        w = w + 1;
    }
    n
}

/// A races line is well formed: a colon followed by numbers, each at
/// most `TIME_MAX` for times and `RECORD_MAX` for records.
pub open spec fn race_line_ok(l: Seq<u8>, cap: int) -> bool {
    &&& has_colon(l)
    &&& nums_ok(colon_tokens(l))
    &&& forall|k: int|
        0 <= k < colon_tokens(l).len() ==> #[trigger] nums_of(colon_tokens(l))[k] <= cap
}

/// The numbers on a races line.
pub open spec fn race_vals(l: Seq<u8>) -> Seq<int> {
    nums_of(colon_tokens(l))
}

/// The number of races: the shorter of the two lists.
pub open spec fn race_count(lv: Seq<Seq<u8>>) -> int {
    if race_vals(lv[0]).len() <= race_vals(lv[1]).len() {
        race_vals(lv[0]).len() as int
    } else {
        race_vals(lv[1]).len() as int
    }
}

/// The product of the win counts of the first `i` races.
pub open spec fn wins_prod(lv: Seq<Seq<u8>>, i: int) -> int
    decreases i,
{
    if i <= 0 {
        1
    } else {
        wins_prod(lv, i - 1) * winning_count(race_vals(lv[0])[i - 1], race_vals(lv[1])[i - 1])
    }
}

/// A part-one input is well formed: two race lines with at least one
/// race, and no prefix of the win-count product exceeds `u64`.
pub open spec fn part1_ok(lv: Seq<Seq<u8>>) -> bool {
    &&& lv.len() >= 2
    &&& race_line_ok(lv[0], TIME_MAX as int)
    &&& race_line_ok(lv[1], RECORD_MAX as int)
    &&& race_count(lv) >= 1
    &&& forall|i: int| 0 <= i <= race_count(lv) ==> #[trigger] wins_prod(lv, i) <= u64::MAX
}

/// Reads one races line, its numbers capped by `cap`.
#[verifier::loop_isolation(false)]
fn parse_race_line(l: &Vec<u8>, cap: u64) -> (r: Option<Vec<u64>>)
    ensures
        match r {
            Some(v) => {
                &&& race_line_ok(l@, cap as int)
                &&& v@.len() == race_vals(l@).len()
                &&& forall|k: int| 0 <= k < v@.len() ==> #[trigger] v@[k] == race_vals(l@)[k]
                &&& forall|k: int| 0 <= k < v@.len() ==> #[trigger] v@[k] <= cap
            },
            None => !race_line_ok(l@, cap as int),
        },
{
    let toks = match tokens_after_colon(l) {
        None => {
            return None;
        },
        Some(t) => t,
    };
    let ns = match parse_nums(&toks) {
        None => {
            return None;
        },
        Some(n) => n,
    };
    let mut k: usize = 0;
    while k < ns.len()
        invariant
            0 <= k <= ns@.len(),
            forall|t: int| 0 <= t < k ==> #[trigger] ns@[t] <= cap,
        decreases ns@.len() - k,
    {
        proof {
            assert(views_of(toks@)[k as int] == toks@[k as int]@);
        }
        if ns[k] > cap {
            proof {
                assert(nums_of(colon_tokens(l@))[k as int] > cap);
            }
            return None;
        }
        k = k + 1;
    }
    proof {
        assert forall|k2: int| 0 <= k2 < ns@.len() implies #[trigger] ns@[k2] == race_vals(l@)[k2]
            && ns@[k2] <= cap by {
            assert(views_of(toks@)[k2] == toks@[k2]@);
        }
        assert forall|k2: int|
            0 <= k2 < colon_tokens(l@).len() implies #[trigger] nums_of(colon_tokens(l@))[k2]
            <= cap by {
            assert(ns@[k2] == race_vals(l@)[k2]);
        }
    }
    Some(ns)
}

/// Multiplies together the win counts of the listed races.
///
/// Returns the product exactly when the input has two well-formed
/// race lines, at least one race, and no intermediate product exceeds
/// `u64`; returns `None` otherwise.
#[verifier::loop_isolation(false)]
pub fn solve_part1(lines: &Vec<Vec<u8>>) -> (r: Option<u64>)
    ensures
        match r {
            Some(v) => part1_ok(views_of(lines@)) && v == wins_prod(
                views_of(lines@),
                race_count(views_of(lines@)),
            ),
            None => !part1_ok(views_of(lines@)),
        },
{
    let ghost lv = views_of(lines@);
    if lines.len() < 2 {
        return None;
    }
    proof {
        assert(lv[0] == lines@[0]@);
        assert(lv[1] == lines@[1]@);
    }
    let times = match parse_race_line(&lines[0], TIME_MAX) {
        None => {
            return None;
        },
        Some(t) => t,
    };
    let records = match parse_race_line(&lines[1], RECORD_MAX) {
        None => {
            return None;
        },
        Some(t) => t,
    };
    let n: usize = if times.len() <= records.len() {
        times.len()
    } else {
        records.len()
    };
    proof {
        assert(n as int == race_count(lv));
    }
    if n == 0 {
        return None;
    }
    let mut prod: u64 = 1;
    let mut i: usize = 0;
    while i < n
        invariant
            0 <= i <= n,
            prod == wins_prod(lv, i as int),
            forall|t: int| 0 <= t <= i ==> #[trigger] wins_prod(lv, t) <= u64::MAX,
        decreases n - i,
    {
        let t = times[i];
        let rec = records[i];
        proof {
            assert(t as int == race_vals(lv[0])[i as int]);
            assert(rec as int == race_vals(lv[1])[i as int]);
        }
        let wins = winning_waits(t as i64, rec as i64);
        let prod2 = match prod.checked_mul(wins as u64) {
            Some(p) => p,
            None => {
                proof {
                    assert(wins_prod(lv, i + 1) > u64::MAX);
                }
                return None;
            },
        };
        prod = prod2;
        i = i + 1;
    }
    Some(prod)
}

/// The digits of a line after the colon with the spaces squeezed out.
pub open spec fn squeezed(l: Seq<u8>) -> Seq<u8>
    decreases l.len(),
{
    if l.len() == 0 {
        Seq::empty()
    } else {
        squeezed(l.drop_last()) + if is_space(l.last()) {
            Seq::empty()
        } else {
            seq![l.last()]
        }
    }
}

/// The one number a part-two line denotes: everything after the colon
/// with spaces removed.
pub open spec fn squeezed_val(l: Seq<u8>) -> int {
    digits_val(squeezed(l.skip(colon_idx(l) + 1)))
}

/// A part-two line is well formed: a colon, then digits and spaces
/// only, at least one digit, the number at most `cap`.
pub open spec fn squeezed_ok(l: Seq<u8>, cap: int) -> bool {
    let d = squeezed(l.skip(colon_idx(l) + 1));
    &&& has_colon(l)
    &&& d.len() > 0
    &&& all_digits(d)
    &&& digits_val(d) <= cap
}

/// Reads a part-two line: the digits after the colon, spaces ignored,
/// as one number capped by `cap`.
#[verifier::loop_isolation(false)]
fn parse_squeezed(l: &Vec<u8>, cap: u64) -> (r: Option<u64>)
    ensures
        match r {
            Some(v) => squeezed_ok(l@, cap as int) && v == squeezed_val(l@) && v <= cap,
            None => !squeezed_ok(l@, cap as int),
        },
{
    let ci = match find_byte(l, 0, 58) {
        None => {
            proof {
                lemma_colon_idx(l@, l@.len() as int);
            }
            return None;
        },
        Some(ci) => ci,
    };
    proof {
        lemma_colon_idx(l@, ci as int);
    }
    let n = l.len();
    let rest = subvec(l, ci + 1, n);
    proof {
        assert(rest@ =~= l@.skip(ci + 1));
    }
    let mut digits: Vec<u8> = Vec::new();
    let mut j: usize = 0;
    proof {
        assert(squeezed(rest@.take(0)) =~= Seq::<u8>::empty());
        assert(digits@ =~= squeezed(rest@.take(0)));
    }
    while j < rest.len()
        invariant
            0 <= j <= rest@.len(),
            digits@ == squeezed(rest@.take(j as int)),
        decreases rest@.len() - j,
    {
        let b = rest[j];
        proof {
            assert(rest@.take(j + 1).drop_last() =~= rest@.take(j as int));
            assert(rest@.take(j + 1).last() == rest@[j as int]);
        }
        if !(b == 32 || b == 9) {
            digits.push(b);
        }
        proof {
            assert(digits@ =~= squeezed(rest@.take(j + 1)));
        }
        j = j + 1;
    }
    proof {
        assert(rest@.take(rest@.len() as int) =~= rest@);
    }
    let v = match parse_u64(&digits) {
        None => {
            return None;
        },
        Some(v) => v,
    };
    if v > cap {
        return None;
    }
    Some(v)
}

/// A part-two input is well formed: a time line and a record line,
/// each one number once the spaces are ignored.
pub open spec fn part2_ok(lv: Seq<Seq<u8>>) -> bool {
    &&& lv.len() >= 2
    &&& squeezed_ok(lv[0], TIME_MAX as int)
    &&& squeezed_ok(lv[1], RECORD_MAX as int)
}

/// Counts the ways to beat the record of the one big race read by
/// ignoring the spaces between the digits.
///
/// Returns the count exactly when both lines are well formed, and
/// `None` otherwise.
pub fn solve_part2(lines: &Vec<Vec<u8>>) -> (r: Option<u64>)
    ensures
        match r {
            Some(v) => part2_ok(views_of(lines@)) && v == winning_count(
                squeezed_val(views_of(lines@)[0]),
                squeezed_val(views_of(lines@)[1]),
            ),
            None => !part2_ok(views_of(lines@)),
        },
{
    let ghost lv = views_of(lines@);
    if lines.len() < 2 {
        return None;
    }
    proof {
        assert(lv[0] == lines@[0]@);
        assert(lv[1] == lines@[1]@);
    }
    let time = match parse_squeezed(&lines[0], TIME_MAX) {
        None => {
            return None;
        },
        Some(t) => t,
    };
    let record = match parse_squeezed(&lines[1], RECORD_MAX) {
        None => {
            return None;
        },
        Some(t) => t,
    };
    let wins = winning_waits(time as i64, record as i64);
    Some(wins as u64)
}

} // verus!
