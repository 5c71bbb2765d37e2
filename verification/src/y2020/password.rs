//! Password policies: each line `a-b x: y` gives two numbers, a
//! letter and a password.  Under the old policy the letter must occur
//! between `a` and `b` times; under the new one exactly one of the
//! (one-based) positions `a` and `b` must hold the letter.

use vstd::prelude::*;
use crate::text::{
    byte_pred, nums_ok, nums_of, parse_nums, split_sep, split_spec, split_ws, space_pred,
    views_of,
};

verus! {

/// How many bytes of `s` equal `c`.
pub open spec fn count_byte(s: Seq<u8>, c: u8) -> int
    decreases s.len(),
{
    if s.len() == 0 {
        0
    } else {
        count_byte(s.drop_last(), c) + if s.last() == c {
            1int
        } else {
            0int
        }
    }
}

/// A policy line is well formed: three tokens, the first two dash
/// separated positive numbers.
pub open spec fn pw_line_ok(l: Seq<u8>) -> bool {
    let ts = split_spec(l, space_pred());
    let rs = split_spec(ts[0], byte_pred(45));
    &&& ts.len() >= 3
    &&& rs.len() >= 2
    &&& nums_ok(rs)
    &&& nums_of(rs)[0] >= 1
    &&& nums_of(rs)[1] >= 1
}

pub open spec fn pw_lo(l: Seq<u8>) -> int {
    nums_of(split_spec(split_spec(l, space_pred())[0], byte_pred(45)))[0]
}

pub open spec fn pw_hi(l: Seq<u8>) -> int {
    nums_of(split_spec(split_spec(l, space_pred())[0], byte_pred(45)))[1]
}

pub open spec fn pw_letter(l: Seq<u8>) -> u8 {
    split_spec(l, space_pred())[1][0]
}

pub open spec fn pw_text(l: Seq<u8>) -> Seq<u8> {
    split_spec(l, space_pred())[2]
}

/// Valid under the old policy: the letter count lies in the range.
pub open spec fn old_valid(l: Seq<u8>) -> bool {
    pw_lo(l) <= count_byte(pw_text(l), pw_letter(l)) <= pw_hi(l)
}

/// Valid under the new policy: exactly one of the two positions holds
/// the letter.
pub open spec fn new_valid(l: Seq<u8>) -> bool {
    let p = pw_text(l);
    let c = pw_letter(l);
    let m1: int = if pw_lo(l) - 1 < p.len() && p[pw_lo(l) - 1] == c {
        1
    } else {
        0
    };
    let m2: int = if pw_hi(l) - 1 < p.len() && p[pw_hi(l) - 1] == c {
        1
    } else {
        0
    };
    m1 + m2 == 1
}

/// Checks one password line under both policies, `1` for valid.
///
/// Returns the pair exactly when the line is well formed, and `None`
/// otherwise.
#[verifier::loop_isolation(false)]
pub fn is_valid_password(line: &Vec<u8>) -> (r: Option<(u64, u64)>)
    ensures
        match r {
            Some((o, n)) => {
                &&& pw_line_ok(line@)
                &&& (o == 1) == old_valid(line@)
                &&& (n == 1) == new_valid(line@)
                &&& o <= 1
                &&& n <= 1
            },
            None => !pw_line_ok(line@),
        },
{
    let ts = split_ws(line);
    if ts.len() < 3 {
        return None;
    }
    proof {
        assert(views_of(ts@)[0] == ts@[0]@);
        assert(views_of(ts@)[1] == ts@[1]@);
        assert(views_of(ts@)[2] == ts@[2]@);
    }
    let rs = split_sep(&ts[0], 45);
    if rs.len() < 2 {
        return None;
    }
    let ns = match parse_nums(&rs) {
        None => {
            return None;
        },
        Some(n) => n,
    };
    proof {
        assert(views_of(rs@)[0] == rs@[0]@);
        assert(views_of(rs@)[1] == rs@[1]@);
    }
    let lo = ns[0];
    let hi = ns[1];
    if lo == 0 || hi == 0 {
        return None;
    }
    proof {
        crate::text::lemma_split_tokens_nonempty(line@, space_pred());
        assert(ts@[1]@.len() > 0);
    }
    let letter = ts[1][0];
    let pw = &ts[2];
    proof {
        assert(letter == pw_letter(line@));
        assert(pw@ == pw_text(line@));
        assert(lo as int == pw_lo(line@));
        assert(hi as int == pw_hi(line@));
    }
    // old policy: count the letter
    let mut cnt: u64 = 0;
    let mut i: usize = 0;
    proof {
        assert(count_byte(pw@.take(0), letter) == 0) by {
            assert(pw@.take(0) =~= Seq::<u8>::empty());
        }
    }
    while i < pw.len()
        invariant
            0 <= i <= pw@.len(),
            cnt == count_byte(pw@.take(i as int), letter),
            cnt <= i,
        decreases pw@.len() - i,
    {
        proof {
            assert(pw@.take(i + 1).drop_last() =~= pw@.take(i as int));
            assert(pw@.take(i + 1).last() == pw@[i as int]);
        }
        if pw[i] == letter {
            cnt = cnt + 1;
        }
        i = i + 1;
    }
    proof {
        assert(pw@.take(pw@.len() as int) =~= pw@);
    }
    let old_ok = lo <= cnt && cnt <= hi;
    // new policy: exactly one of the two positions
    let m1: u64 = if lo - 1 < pw.len() as u64 && pw[(lo - 1) as usize] == letter {
        1
    } else {
        0
    };
    let m2: u64 = if hi - 1 < pw.len() as u64 && pw[(hi - 1) as usize] == letter {
        1
    } else {
        0
    };
    let new_ok = m1 + m2 == 1;
    Some((if old_ok { 1 } else { 0 }, if new_ok { 1 } else { 0 }))
}

/// The old- and new-policy counts over the first `i` lines.
pub open spec fn pw_counts(lv: Seq<Seq<u8>>, i: int) -> (int, int)
    decreases i,
{
    if i <= 0 {
        (0, 0)
    } else {
        let (o, n) = pw_counts(lv, i - 1);
        (
            o + if old_valid(lv[i - 1]) {
                1int
            } else {
                0int
            },
            n + if new_valid(lv[i - 1]) {
                1int
            } else {
                0int
            },
        )
    }
}

/// Counts the lines valid under each policy.
///
/// Returns the counts exactly when every line is well formed, and
/// `None` otherwise.
#[verifier::loop_isolation(false)]
pub fn count_valid_passwords(lines: &Vec<Vec<u8>>) -> (r: Option<(u64, u64)>)
    ensures
        match r {
            Some((o, n)) => (forall|k: int|
                0 <= k < lines@.len() ==> pw_line_ok(#[trigger] views_of(lines@)[k])) && (
            o as int, n as int) == pw_counts(views_of(lines@), lines@.len() as int),
            None => !(forall|k: int|
                0 <= k < lines@.len() ==> pw_line_ok(#[trigger] views_of(lines@)[k])),
        },
{
    let ghost lv = views_of(lines@);
    let mut o: u64 = 0;
    let mut n: u64 = 0;
    let mut i: usize = 0;
    while i < lines.len()
        invariant
            0 <= i <= lines@.len(),
            (o as int, n as int) == pw_counts(lv, i as int),
            o <= i,
            n <= i,
            forall|k: int| 0 <= k < i ==> pw_line_ok(#[trigger] lv[k]),
        decreases lines@.len() - i,
    {
        proof {
            assert(lv[i as int] == lines@[i as int]@);
        }
        let (lo, ln) = match is_valid_password(&lines[i]) {
            None => {
                return None;
            },
            Some(p) => p,
        };
        o = o + lo;
        n = n + ln;
        i = i + 1;
    }
    Some((o, n))
}

} // verus!
