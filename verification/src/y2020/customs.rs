//! Customs declaration forms: groups of lines separated by blanks.
//! The first count sums, per group, the distinct letters anyone
//! answered; the second sums the letters whose total count across the
//! group matches the group's size.

use vstd::prelude::*;
use crate::text::views_of;
use crate::y2020::passport::{group_end, lemma_group_end_ge};
use crate::y2020::password::count_byte;

verus! {

/// An ASCII letter.
pub open spec fn is_letter(c: u8) -> bool {
    (65 <= c <= 90) || (97 <= c <= 122)
}

/// How often the byte `c` appears in the group's lines `lv[a..b)`.
pub open spec fn cnt_group(lv: Seq<Seq<u8>>, a: int, b: int, c: u8) -> int
    decreases b - a,
{
    if a < 0 || a >= b {
        0
    } else {
        count_byte(lv[a], c) + cnt_group(lv, a + 1, b, c)
    }
}

/// The distinct letters someone in the group answered, counted over
/// the byte values at or above `c`.
pub open spec fn distinct_from(lv: Seq<Seq<u8>>, a: int, b: int, c: int) -> int
    decreases 256 - c,
{
    if c < 0 || c >= 256 {
        0
    } else {
        (if is_letter(c as u8) && cnt_group(lv, a, b, c as u8) > 0 {
            1int
        } else {
            0int
        }) + distinct_from(lv, a, b, c + 1)
    }
}

/// The group's anyone-answered count: its distinct letters, a
/// nonempty letterless group still counting one.
pub open spec fn any_val(lv: Seq<Seq<u8>>, a: int, b: int) -> int {
    if a >= b {
        0
    } else {
        let d = distinct_from(lv, a, b, 0);
        if d == 0 {
            1
        } else {
            d
        }
    }
}

/// The letters whose total count across the group equals the group
/// size, counted over the byte values at or above `c`.
pub open spec fn every_from(lv: Seq<Seq<u8>>, a: int, b: int, c: int) -> int
    decreases 256 - c,
{
    if c < 0 || c >= 256 {
        0
    } else {
        (if is_letter(c as u8) && cnt_group(lv, a, b, c as u8) > 0 && cnt_group(lv, a, b, c as u8)
            == b - a {
            1int
        } else {
            0int
        }) + every_from(lv, a, b, c + 1)
    }
}

pub open spec fn every_val(lv: Seq<Seq<u8>>, a: int, b: int) -> int {
    every_from(lv, a, b, 0)
}

/// Both sums over the groups starting at `j`.
pub open spec fn customs_sums(lv: Seq<Seq<u8>>, j: int) -> (int, int)
    decreases lv.len() - j,
    via customs_sums_decreases
{
    if j < 0 || j >= lv.len() {
        (0, 0)
    } else {
        let e = group_end(lv, j);
        let rest = customs_sums(lv, if e < lv.len() {
            e + 1
        } else {
            e
        });
        (rest.0 + any_val(lv, j, e), rest.1 + every_val(lv, j, e))
    }
}

#[via_fn]
proof fn customs_sums_decreases(lv: Seq<Seq<u8>>, j: int) {
    if 0 <= j < lv.len() {
        lemma_group_end_ge(lv, j);
    }
}

proof fn lemma_distinct_bounds(lv: Seq<Seq<u8>>, a: int, b: int, c: int)
    ensures
        0 <= distinct_from(lv, a, b, c),
        0 <= c <= 256 ==> distinct_from(lv, a, b, c) <= 256 - c,
    decreases 256 - c,
{
    if !(c < 0 || c >= 256) {
        lemma_distinct_bounds(lv, a, b, c + 1);
    }
}

proof fn lemma_every_bounds(lv: Seq<Seq<u8>>, a: int, b: int, c: int)
    ensures
        0 <= every_from(lv, a, b, c),
        0 <= c <= 256 ==> every_from(lv, a, b, c) <= 256 - c,
    decreases 256 - c,
{
    if !(c < 0 || c >= 256) {
        lemma_every_bounds(lv, a, b, c + 1);
    }
}

/// A byte count within a group never exceeds the group's bytes.
proof fn lemma_cnt_group_bounds(lv: Seq<Seq<u8>>, a: int, b: int, c: u8)
    requires
        b <= lv.len(),
        forall|t: int| 0 <= t < lv.len() ==> (#[trigger] lv[t]).len() <= 0x1000_0000,
    ensures
        0 <= cnt_group(lv, a, b, c) <= (if b - a >= 0 {
            (b - a) * 0x1000_0000
        } else {
            0int
        }),
    decreases b - a,
{
    if !(a < 0 || a >= b) {
        lemma_count_byte_bounds(lv[a], c);
        lemma_cnt_group_bounds(lv, a + 1, b, c);
        assert((b - a) * 0x1000_0000 == (b - a - 1) * 0x1000_0000 + 0x1000_0000)
            by (nonlinear_arith);
    }
}

proof fn lemma_count_byte_bounds(s: Seq<u8>, c: u8)
    ensures
        0 <= count_byte(s, c) <= s.len(),
    decreases s.len(),
{
    if s.len() > 0 {
        lemma_count_byte_bounds(s.drop_last(), c);
    }
}

/// How often the byte `c` appears in the group.
#[verifier::loop_isolation(false)]
fn cnt_group_exec(lines: &Vec<Vec<u8>>, a: usize, b: usize, c: u8) -> (r: u64)
    requires
        a <= b <= lines@.len(),
        b - a <= 0x1000_0000,
        forall|t: int| 0 <= t < lines@.len() ==> (#[trigger] views_of(lines@)[t]).len()
            <= 0x1000_0000,
    ensures
        r == cnt_group(views_of(lines@), a as int, b as int, c),
{
    let ghost lv = views_of(lines@);
    let mut r: u64 = 0;
    let mut t: usize = a;
    proof {
        lemma_cnt_group_bounds(lv, a as int, b as int, c);
    }
    while t < b
        invariant
            a <= t <= b,
            cnt_group(lv, a as int, b as int, c) == r + cnt_group(lv, t as int, b as int, c),
            r <= (t - a) * 0x1000_0000,
        decreases b - t,
    {
        proof {
            assert(lv[t as int] == lines@[t as int]@);
            lemma_count_byte_bounds(lv[t as int], c);
            lemma_cnt_group_bounds(lv, t as int + 1, b as int, c);
            assert((t + 1 - a) * 0x1000_0000 == (t - a) * 0x1000_0000 + 0x1000_0000)
                by (nonlinear_arith);
        }
        let line = &lines[t];
        let mut x: usize = 0;
        let mut here: u64 = 0;
        proof {
            assert(count_byte(line@.take(0), c) == 0) by {
                assert(line@.take(0) =~= Seq::<u8>::empty());
            }
        }
        while x < line.len()
            invariant
                0 <= x <= line@.len(),
                t < b,
                line@ == lv[t as int],
                here == count_byte(line@.take(x as int), c),
                here <= x,
            decreases line@.len() - x,
        {
            proof {
                assert(line@.take(x + 1).drop_last() =~= line@.take(x as int));
                assert(line@.take(x + 1).last() == line@[x as int]);
            }
            if line[x] == c {
                here = here + 1;
            }
            x = x + 1;
        }
        proof {
            assert(line@.take(line@.len() as int) =~= line@);
        }
        r = r + here;
        t = t + 1;
    }
    r
}

/// Sums the anyone-answered and everyone-answered counts over the
/// groups.
///
/// Returns the counts exactly when the input is inside the accepted
/// dimensions, and `None` otherwise.
#[verifier::loop_isolation(false)]
pub fn customs_counts(lines: &Vec<Vec<u8>>) -> (r: Option<(u64, u64)>)
    ensures
        match r {
            Some((x, y)) => {
                &&& lines@.len() <= 0x1000_0000
                &&& forall|t: int|
                    0 <= t < lines@.len() ==> (#[trigger] views_of(lines@)[t]).len() <= 0x1000_0000
                &&& (x as int, y as int) == customs_sums(views_of(lines@), 0)
            },
            None => !(lines@.len() <= 0x1000_0000 && forall|t: int|
                0 <= t < lines@.len() ==> (#[trigger] views_of(lines@)[t]).len() <= 0x1000_0000),
        },
{
    let ghost lv = views_of(lines@);
    if lines.len() > 0x1000_0000 {
        return None;
    }
    let mut t0: usize = 0;
    while t0 < lines.len()
        invariant
            0 <= t0 <= lines@.len(),
            forall|t: int| 0 <= t < t0 ==> (#[trigger] lv[t]).len() <= 0x1000_0000,
        decreases lines@.len() - t0,
    {
        proof {
            assert(lv[t0 as int] == lines@[t0 as int]@);
        }
        if lines[t0].len() > 0x1000_0000 {
            return None;
        }
        t0 = t0 + 1;
    }
    let mut anyc: u64 = 0;
    let mut everyc: u64 = 0;
    let mut j: usize = 0;
    while j < lines.len()
        invariant
            0 <= j <= lines@.len(),
            lines@.len() <= 0x1000_0000,
            forall|t: int| 0 <= t < lines@.len() ==> (#[trigger] lv[t]).len() <= 0x1000_0000,
            anyc <= 256 * j,
            everyc <= 256 * j,
            ({
                let rest = customs_sums(lv, j as int);
                customs_sums(lv, 0) == (anyc + rest.0, everyc + rest.1)
            }),
        decreases lines@.len() - j,
    {
        let ghost j0 = j as int;
        // find the end of this group
        let mut e: usize = j;
        while e < lines.len() && lines[e].len() > 0
            invariant
                j <= e <= lines@.len(),
                forall|t: int| j <= t < e ==> (#[trigger] lv[t]).len() > 0,
            decreases lines@.len() - e,
        {
            proof {
                assert(lv[e as int] == lines@[e as int]@);
            }
            e = e + 1;
        }
        proof {
            if e < lines@.len() {
                assert(lv[e as int] == lines@[e as int]@);
            }
            lemma_group_end_char2(lv, j0, e as int);
            lemma_distinct_bounds(lv, j0, e as int, 0);
            lemma_every_bounds(lv, j0, e as int, 0);
        }
        // walk the byte values, counting the letters
        let mut d: u64 = 0;
        let mut ev: u64 = 0;
        let mut c: u16 = 0;
        while c < 256
            invariant
                0 <= c <= 256,
                j <= e <= lines@.len(),
                e - j <= 0x1000_0000,
                lines@.len() <= 0x1000_0000,
                forall|t: int| 0 <= t < lines@.len() ==> (#[trigger] lv[t]).len() <= 0x1000_0000,
                distinct_from(lv, j0, e as int, 0) == d + distinct_from(lv, j0, e as int, c as int),
                every_from(lv, j0, e as int, 0) == ev + every_from(lv, j0, e as int, c as int),
                d <= c,
                ev <= c,
            decreases 256 - c,
        {
            let cb = c as u8;
            let letter = (65 <= cb && cb <= 90) || (97 <= cb && cb <= 122);
            if letter {
                let n = cnt_group_exec(lines, j, e, cb);
                if n > 0 {
                    d = d + 1;
                    if n == (e - j) as u64 {
                        ev = ev + 1;
                    }
                }
            }
            c = c + 1;
        }
        proof {
            assert(distinct_from(lv, j0, e as int, 256) == 0);
            assert(every_from(lv, j0, e as int, 256) == 0);
        }
        let a_add: u64 = if j == e {
            0
        } else if d == 0 {
            1
        } else {
            d
        };
        proof {
            assert(a_add == any_val(lv, j0, e as int));
            assert(ev == every_val(lv, j0, e as int));
        }
        anyc = anyc + a_add;
        everyc = everyc + ev;
        if e < lines.len() {
            j = e + 1;
        } else {
            j = e;
        }
    }
    proof {
        assert(customs_sums(lv, lines@.len() as int) == (0int, 0int));
    }
    Some((anyc, everyc))
}

/// `group_end` is where the nonempty lines stop.
proof fn lemma_group_end_char2(lv: Seq<Seq<u8>>, j: int, e: int)
    requires
        0 <= j <= e <= lv.len(),
        forall|t: int| j <= t < e ==> (#[trigger] lv[t]).len() > 0,
        e == lv.len() || lv[e].len() == 0,
    ensures
        group_end(lv, j) == e,
    decreases e - j,
{
    if j < e {
        lemma_group_end_char2(lv, j + 1, e);
    }
}

} // verus!
