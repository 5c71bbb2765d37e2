//! Calibration values: each line contributes a two-digit number made of
//! its first and last digit.  Part one reads only ASCII digits; part two
//! also reads the spelled-out words `one` through `nine`.  Lines with no
//! digit contribute nothing.

use vstd::prelude::*;
use crate::text::{is_digit, views_of};

verus! {

/// The index of the first ASCII digit of `s`, or `s.len()` when there
/// is none.
pub open spec fn first_digit_idx(s: Seq<u8>) -> int
    decreases s.len(),
{
    if s.len() == 0 {
        0
    } else if is_digit(s[0]) {
        0
    } else {
        1 + first_digit_idx(s.drop_first())
    }
}

/// The index of the last ASCII digit of `s`, or `-1` when there is none.
pub open spec fn last_digit_idx(s: Seq<u8>) -> int
    decreases s.len(),
{
    if s.len() == 0 {
        -1
    } else if is_digit(s.last()) {
        s.len() - 1
    } else {
        last_digit_idx(s.drop_last())
    }
}

pub open spec fn has_digit(s: Seq<u8>) -> bool {
    first_digit_idx(s) < s.len()
}

/// A line's part-one value: first digit times ten plus last digit, or
/// nothing for a line without digits.
pub open spec fn line_value1(s: Seq<u8>) -> int {
    if has_digit(s) {
        (s[first_digit_idx(s)] - 48) * 10 + (s[last_digit_idx(s)] - 48)
    } else {
        0
    }
}

/// The part-one answer: the sum of every line's value.
pub open spec fn sum1(lv: Seq<Seq<u8>>) -> int
    decreases lv.len(),
{
    if lv.len() == 0 {
        0
    } else {
        sum1(lv.drop_last()) + line_value1(lv.last())
    }
}

/// `first_digit_idx` is the position of the first digit.
proof fn lemma_first_digit_idx(s: Seq<u8>, i: int)
    requires
        0 <= i <= s.len(),
        forall|j: int| 0 <= j < i ==> !is_digit(s[j]),
        i == s.len() || is_digit(s[i]),
    ensures
        first_digit_idx(s) == i,
    decreases i,
{
    if s.len() > 0 && !is_digit(s[0]) {
        assert(forall|j: int| 0 <= j < i - 1 ==> s.drop_first()[j] == s[j + 1]);
        lemma_first_digit_idx(s.drop_first(), i - 1);
    }
}

/// `last_digit_idx` is the position of the last digit.
proof fn lemma_last_digit_idx(s: Seq<u8>, i: int)
    requires
        -1 <= i < s.len(),
        forall|j: int| i < j < s.len() ==> !is_digit(s[j]),
        i == -1 || is_digit(s[i]),
    ensures
        last_digit_idx(s) == i,
    decreases s.len(),
{
    if s.len() > 0 && !is_digit(s.last()) {
        lemma_last_digit_idx(s.drop_last(), i);
    }
}

/// A line's value is a two-digit number.
proof fn lemma_line_value1_bounds(s: Seq<u8>)
    ensures
        0 <= line_value1(s) <= 99,
    decreases s.len(),
{
    if has_digit(s) {
        lemma_first_digit_in_range(s);
        lemma_last_digit_in_range(s);
    }
}

proof fn lemma_first_digit_in_range(s: Seq<u8>)
    requires
        has_digit(s),
    ensures
        0 <= first_digit_idx(s) < s.len(),
        is_digit(s[first_digit_idx(s)]),
    decreases s.len(),
{
    if s.len() > 0 && !is_digit(s[0]) {
        lemma_first_digit_in_range(s.drop_first());
    }
}

proof fn lemma_last_digit_in_range(s: Seq<u8>)
    requires
        has_digit(s),
    ensures
        first_digit_idx(s) <= last_digit_idx(s) < s.len(),
        is_digit(s[last_digit_idx(s)]),
    decreases s.len(),
{
    lemma_first_digit_in_range(s);
    lemma_last_digit_idx_ge(s, first_digit_idx(s));
}

/// A digit at `i` puts the last digit at or after `i`.
proof fn lemma_last_digit_idx_ge(s: Seq<u8>, i: int)
    requires
        0 <= i < s.len(),
        is_digit(s[i]),
    ensures
        i <= last_digit_idx(s) < s.len(),
        is_digit(s[last_digit_idx(s)]),
    decreases s.len(),
{
    if !is_digit(s.last()) {
        lemma_last_digit_idx_ge(s.drop_last(), i);
    }
}

/// Sums only grow as lines are added.
proof fn lemma_sum1_mono(lv: Seq<Seq<u8>>, i: int)
    requires
        0 <= i <= lv.len(),
    ensures
        sum1(lv.take(i)) <= sum1(lv),
        sum1(lv) >= 0,
    decreases lv.len(),
{
    lemma_line_value1_bounds(lv.last());
    if lv.len() > 0 {
        if i == lv.len() {
            assert(lv.take(i) =~= lv);
            lemma_sum1_mono(lv.drop_last(), lv.len() - 1);
        } else {
            assert(lv.take(i) =~= lv.drop_last().take(i));
            lemma_sum1_mono(lv.drop_last(), i);
        }
    } else {
        assert(lv.take(i) =~= lv);
    }
}

/// A line's part-one value.
#[verifier::loop_isolation(false)]
fn line_value_p1(s: &Vec<u8>) -> (v: u64)
    ensures
        v == line_value1(s@),
        v <= 99,
{
    let n = s.len();
    let mut i: usize = 0;
    while i < n
        invariant
            0 <= i <= n,
            forall|j: int| 0 <= j < i ==> !is_digit(s@[j]),
        decreases n - i,
    {
        let b = s[i];
        if 48 <= b && b <= 57 {
            proof {
                lemma_first_digit_idx(s@, i as int);
            }
            // scan backwards for the last digit; one exists at `i`
            let mut j: usize = n;
            while j > 0
                invariant
                    i < j <= n,
                    is_digit(s@[i as int]),
                    forall|t: int| j <= t < n ==> !is_digit(s@[t]),
                decreases j,
            {
                let c = s[j - 1];
                if 48 <= c && c <= 57 {
                    proof {
                        lemma_last_digit_idx(s@, j - 1);
                        lemma_line_value1_bounds(s@);
                    }
                    return (b - 48) as u64 * 10 + (c - 48) as u64;
                }
                proof {
                    assert(j - 1 != i);
                }
                j = j - 1;
            }
            // the scan always stops at `i` or later
            return 0;
        }
        i = i + 1;
    }
    proof {
        lemma_first_digit_idx(s@, n as int);
    }
    0
}

/// Sums the calibration value of every line, reading only ASCII digits.
///
/// Returns the sum unless it exceeds `u64::MAX`.
#[verifier::loop_isolation(false)]
pub fn solve_part1(lines: &Vec<Vec<u8>>) -> (r: Option<u64>)
    ensures
        match r {
            Some(v) => v == sum1(views_of(lines@)),
            None => sum1(views_of(lines@)) > u64::MAX,
        },
{
    let ghost lv = views_of(lines@);
    let mut acc: u64 = 0;
    let mut i: usize = 0;
    proof {
        assert(lv.take(0) =~= Seq::<Seq<u8>>::empty());
    }
    while i < lines.len()
        invariant
            0 <= i <= lines@.len(),
            acc == sum1(lv.take(i as int)),
        decreases lines@.len() - i,
    {
        let v = line_value_p1(&lines[i]);
        proof {
            assert(lv[i as int] == lines@[i as int]@);
            assert(lv.take(i + 1).drop_last() =~= lv.take(i as int));
            assert(lv.take(i + 1).last() == lv[i as int]);
        }
        if acc > u64::MAX - v {
            proof {
                lemma_sum1_mono(lv, i + 1);
            }
            return None;
        }
        acc = acc + v;
        i = i + 1;
    }
    proof {
        assert(lv.take(lines@.len() as int) =~= lv);
    }
    Some(acc)
}

/// The spelled-out word for the digit `d`.
pub open spec fn digit_word(d: int) -> Seq<u8> {
    if d == 1 {
        seq!['o' as u8, 'n' as u8, 'e' as u8]
    } else if d == 2 {
        seq!['t' as u8, 'w' as u8, 'o' as u8]
    } else if d == 3 {
        seq!['t' as u8, 'h' as u8, 'r' as u8, 'e' as u8, 'e' as u8]
    } else if d == 4 {
        seq!['f' as u8, 'o' as u8, 'u' as u8, 'r' as u8]
    } else if d == 5 {
        seq!['f' as u8, 'i' as u8, 'v' as u8, 'e' as u8]
    } else if d == 6 {
        seq!['s' as u8, 'i' as u8, 'x' as u8]
    } else if d == 7 {
        seq!['s' as u8, 'e' as u8, 'v' as u8, 'e' as u8, 'n' as u8]
    } else if d == 8 {
        seq!['e' as u8, 'i' as u8, 'g' as u8, 'h' as u8, 't' as u8]
    } else {
        seq!['n' as u8, 'i' as u8, 'n' as u8, 'e' as u8]
    }
}

/// The bytes `pat` occur in `s` at position `i`.
pub open spec fn occurs_at(s: Seq<u8>, pat: Seq<u8>, i: int) -> bool {
    0 <= i && i + pat.len() <= s.len() && s.subrange(i, i + pat.len()) == pat
}

/// The digit denoted at position `i` of `s`: an ASCII digit `1`..`9`,
/// or a spelled-out word starting there; `0` when neither does.
pub open spec fn val_at(s: Seq<u8>, i: int) -> int {
    if 0 <= i < s.len() && 49 <= s[i] <= 57 {
        s[i] - 48
    } else if occurs_at(s, digit_word(1), i) {
        1
    } else if occurs_at(s, digit_word(2), i) {
        2
    } else if occurs_at(s, digit_word(3), i) {
        3
    } else if occurs_at(s, digit_word(4), i) {
        4
    } else if occurs_at(s, digit_word(5), i) {
        5
    } else if occurs_at(s, digit_word(6), i) {
        6
    } else if occurs_at(s, digit_word(7), i) {
        7
    } else if occurs_at(s, digit_word(8), i) {
        8
    } else if occurs_at(s, digit_word(9), i) {
        9
    } else {
        0
    }
}

/// The first position at or after `i` denoting a digit, or `s.len()`.
pub open spec fn first_match(s: Seq<u8>, i: int) -> int
    decreases s.len() - i,
{
    if i < 0 || i >= s.len() {
        s.len() as int
    } else if val_at(s, i) != 0 {
        i
    } else {
        first_match(s, i + 1)
    }
}

/// The last position at or before `i` denoting a digit, or `-1`.
pub open spec fn last_match(s: Seq<u8>, i: int) -> int
    decreases i + 1,
{
    if i < 0 || i >= s.len() {
        -1
    } else if val_at(s, i) != 0 {
        i
    } else {
        last_match(s, i - 1)
    }
}

/// A line's part-two value: the first and last denoted digits combined,
/// or nothing when the line denotes no digit.
pub open spec fn line_value2(s: Seq<u8>) -> int {
    if first_match(s, 0) < s.len() {
        val_at(s, first_match(s, 0)) * 10 + val_at(s, last_match(s, s.len() - 1))
    } else {
        0
    }
}

/// The part-two answer: the sum of every line's value.
pub open spec fn sum2(lv: Seq<Seq<u8>>) -> int
    decreases lv.len(),
{
    if lv.len() == 0 {
        0
    } else {
        sum2(lv.drop_last()) + line_value2(lv.last())
    }
}

/// The digit denoted at position `i`, or `0`.
#[verifier::loop_isolation(false)]
fn val_at_exec(s: &Vec<u8>, i: usize) -> (d: u64)
    requires
        i < s@.len(),
    ensures
        d == val_at(s@, i as int),
        d <= 9,
{
    let n = s.len();
    let b = s[i];
    if 49 <= b && b <= 57 {
        return (b - 48) as u64;
    }
    if n - i >= 3 && s[i] == 111 && s[i + 1] == 110 && s[i + 2] == 101 {
        proof {
            assert(s@.subrange(i as int, i + 3) =~= digit_word(1));
        }
        return 1;
    }
    if n - i >= 3 && s[i] == 116 && s[i + 1] == 119 && s[i + 2] == 111 {
        proof {
            assert(s@.subrange(i as int, i + 3) =~= digit_word(2));
        }
        return 2;
    }
    if n - i >= 5 && s[i] == 116 && s[i + 1] == 104 && s[i + 2] == 114 && s[i + 3] == 101 && s[i
        + 4] == 101 {
        proof {
            assert(s@.subrange(i as int, i + 5) =~= digit_word(3));
        }
        return 3;
    }
    if n - i >= 4 && s[i] == 102 && s[i + 1] == 111 && s[i + 2] == 117 && s[i + 3] == 114 {
        proof {
            assert(s@.subrange(i as int, i + 4) =~= digit_word(4));
        }
        return 4;
    }
    if n - i >= 4 && s[i] == 102 && s[i + 1] == 105 && s[i + 2] == 118 && s[i + 3] == 101 {
        proof {
            assert(s@.subrange(i as int, i + 4) =~= digit_word(5));
        }
        return 5;
    }
    if n - i >= 3 && s[i] == 115 && s[i + 1] == 105 && s[i + 2] == 120 {
        proof {
            assert(s@.subrange(i as int, i + 3) =~= digit_word(6));
        }
        return 6;
    }
    if n - i >= 5 && s[i] == 115 && s[i + 1] == 101 && s[i + 2] == 118 && s[i + 3] == 101 && s[i
        + 4] == 110 {
        proof {
            assert(s@.subrange(i as int, i + 5) =~= digit_word(7));
        }
        return 7;
    }
    if n - i >= 5 && s[i] == 101 && s[i + 1] == 105 && s[i + 2] == 103 && s[i + 3] == 104 && s[i
        + 4] == 116 {
        proof {
            assert(s@.subrange(i as int, i + 5) =~= digit_word(8));
        }
        return 8;
    }
    if n - i >= 4 && s[i] == 110 && s[i + 1] == 105 && s[i + 2] == 110 && s[i + 3] == 101 {
        proof {
            assert(s@.subrange(i as int, i + 4) =~= digit_word(9));
        }
        return 9;
    }
    proof {
        assert forall|d: int| 1 <= d <= 9 implies !occurs_at(s@, digit_word(d), i as int) by {
            if occurs_at(s@, digit_word(d), i as int) {
                let w = digit_word(d);
                assert(s@.subrange(i as int, i + w.len())[0] == s@[i as int]);
                assert(s@.subrange(i as int, i + w.len())[1] == s@[i + 1]);
                assert(s@.subrange(i as int, i + w.len())[2] == s@[i + 2]);
                if w.len() > 3 {
                    assert(s@.subrange(i as int, i + w.len())[3] == s@[i + 3]);
                }
                if w.len() > 4 {
                    assert(s@.subrange(i as int, i + w.len())[4] == s@[i + 4]);
                }
            }
        }
    }
    0
}

proof fn lemma_val_at_bounds(s: Seq<u8>, i: int)
    ensures
        0 <= val_at(s, i) <= 9,
{
}

/// A line's part-two value is a two-digit number.
proof fn lemma_line_value2_bounds(s: Seq<u8>)
    ensures
        0 <= line_value2(s) <= 99,
{
    lemma_val_at_bounds(s, first_match(s, 0));
    lemma_val_at_bounds(s, last_match(s, s.len() - 1));
}

proof fn lemma_sum2_mono(lv: Seq<Seq<u8>>, i: int)
    requires
        0 <= i <= lv.len(),
    ensures
        sum2(lv.take(i)) <= sum2(lv),
        sum2(lv) >= 0,
    decreases lv.len(),
{
    lemma_line_value2_bounds(lv.last());
    if lv.len() > 0 {
        if i == lv.len() {
            assert(lv.take(i) =~= lv);
            lemma_sum2_mono(lv.drop_last(), lv.len() - 1);
        } else {
            assert(lv.take(i) =~= lv.drop_last().take(i));
            lemma_sum2_mono(lv.drop_last(), i);
        }
    } else {
        assert(lv.take(i) =~= lv);
    }
}

/// A line's part-two value.
#[verifier::loop_isolation(false)]
fn line_value_p2(s: &Vec<u8>) -> (v: u64)
    ensures
        v == line_value2(s@),
        v <= 99,
{
    let n = s.len();
    let mut i: usize = 0;
    while i < n
        invariant
            0 <= i <= n,
            first_match(s@, 0) == first_match(s@, i as int),
        decreases n - i,
    {
        let d = val_at_exec(s, i);
        if d > 0 {
            // a digit is denoted at `i`; find the last one, which
            // exists at `i` at the latest
            proof {
                assert(first_match(s@, i as int) == i);
            }
            let mut j: usize = n;
            while j > 0
                invariant
                    i < j <= n,
                    val_at(s@, i as int) == d,
                    0 < d <= 9,
                    last_match(s@, n - 1) == last_match(s@, j - 1),
                decreases j,
            {
                let e = val_at_exec(s, j - 1);
                if e > 0 {
                    proof {
                        assert(last_match(s@, j - 1) == j - 1);
                        lemma_line_value2_bounds(s@);
                    }
                    return d * 10 + e;
                }
                proof {
                    assert(j - 1 != i);
                    assert(last_match(s@, j - 1) == last_match(s@, j - 2));
                }
                j = j - 1;
            }
            // the scan always stops at `i` or later
            return 0;
        }
        proof {
            assert(first_match(s@, i as int) == first_match(s@, i + 1));
        }
        i = i + 1;
    }
    proof {
        assert(first_match(s@, 0) == n);
    }
    0
}

/// Sums the calibration value of every line, reading digits and the
/// spelled-out words `one` through `nine`.
///
/// Returns the sum unless it exceeds `u64::MAX`.
#[verifier::loop_isolation(false)]
pub fn solve_part2(lines: &Vec<Vec<u8>>) -> (r: Option<u64>)
    ensures
        match r {
            Some(v) => v == sum2(views_of(lines@)),
            None => sum2(views_of(lines@)) > u64::MAX,
        },
{
    let ghost lv = views_of(lines@);
    let mut acc: u64 = 0;
    let mut i: usize = 0;
    proof {
        assert(lv.take(0) =~= Seq::<Seq<u8>>::empty());
    }
    while i < lines.len()
        invariant
            0 <= i <= lines@.len(),
            acc == sum2(lv.take(i as int)),
        decreases lines@.len() - i,
    {
        let v = line_value_p2(&lines[i]);
        proof {
            assert(lv[i as int] == lines@[i as int]@);
            assert(lv.take(i + 1).drop_last() =~= lv.take(i as int));
            assert(lv.take(i + 1).last() == lv[i as int]);
        }
        if acc > u64::MAX - v {
            proof {
                lemma_sum2_mono(lv, i + 1);
            }
            return None;
        }
        acc = acc + v;
        i = i + 1;
    }
    proof {
        assert(lv.take(lines@.len() as int) =~= lv);
    }
    Some(acc)
}

} // verus!
