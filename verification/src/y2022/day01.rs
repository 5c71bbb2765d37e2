//! Calorie counting: the input lists numbers in groups separated by
//! blank (or unreadable) lines; the answer is the largest finished
//! group sum.  A line that is not a plain number counts as a
//! separator, and only groups closed by a separator compete.

use vstd::prelude::*;
use crate::text::{all_digits, digits_val, views_of};

verus! {

/// The number a line denotes, a separator counting zero.
pub open spec fn line_val(l: Seq<u8>) -> int {
    if l.len() > 0 && all_digits(l) && digits_val(l) <= u64::MAX {
        digits_val(l)
    } else {
        0
    }
}

/// The fold state after the first `i` lines: the best finished group
/// sum, and the running group sum.
pub open spec fn ms_state(lv: Seq<Seq<u8>>, i: int) -> (int, int)
    decreases i,
{
    if i <= 0 {
        (0, 0)
    } else {
        let (b, c) = ms_state(lv, i - 1);
        let x = line_val(lv[i - 1]);
        if x == 0 {
            (if b >= c {
                b
            } else {
                c
            }, 0)
        } else {
            (b, c + x)
        }
    }
}

/// Every running sum along the way fits in `u64`.
pub open spec fn ms_ok(lv: Seq<Seq<u8>>) -> bool {
    forall|i: int| 0 <= i <= lv.len() ==> (#[trigger] ms_state(lv, i)).1 <= u64::MAX
}

/// The largest finished group sum.
///
/// Returns it exactly when no running sum overflows `u64`, and `None`
/// otherwise.
#[verifier::loop_isolation(false)]
pub fn max_sum(lines: &Vec<Vec<u8>>) -> (r: Option<u64>)
    ensures
        match r {
            Some(v) => ms_ok(views_of(lines@)) && v == ms_state(
                views_of(lines@),
                lines@.len() as int,
            ).0,
            None => !ms_ok(views_of(lines@)),
        },
{
    let ghost lv = views_of(lines@);
    let mut best: u64 = 0;
    let mut cur: u64 = 0;
    let mut i: usize = 0;
    while i < lines.len()
        invariant
            0 <= i <= lines@.len(),
            best as int == ms_state(lv, i as int).0,
            cur as int == ms_state(lv, i as int).1,
            forall|t: int| 0 <= t <= i ==> (#[trigger] ms_state(lv, t)).1 <= u64::MAX,
        decreases lines@.len() - i,
    {
        proof {
            assert(lv[i as int] == lines@[i as int]@);
        }
        let line = &lines[i];
        let x = match crate::text::parse_u64(line) {
            None => 0,
            Some(v) => v,
        };
        proof {
            assert(x as int == line_val(lv[i as int]));
        }
        if x == 0 {
            if cur > best {
                best = cur;
            }
            cur = 0;
        } else {
            if cur > u64::MAX - x {
                proof {
                    assert(ms_state(lv, i + 1).1 > u64::MAX);
                }
                return None;
            }
            cur = cur + x;
        }
        i = i + 1;
    }
    Some(best)
}

} // verus!
