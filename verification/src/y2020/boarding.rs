//! Boarding passes: the first ten letters of a pass pick a seat by
//! binary space partitioning, `B` and `R` setting a bit.  The answers
//! are the highest seat id, and the one empty seat whose neighbours
//! are both taken.

use vstd::prelude::*;
use crate::text::views_of;

verus! {

/// A power of two.
pub open spec fn p2(k: int) -> int
    decreases k,
{
    if k <= 0 {
        1
    } else {
        2 * p2(k - 1)
    }
}

/// The first ten bytes are partition letters.
pub open spec fn bsp_ok(p: Seq<u8>) -> bool {
    p.len() >= 10 && forall|i: int|
        0 <= i < 10 ==> #[trigger] p[i] == 66 || p[i] == 82 || p[i] == 70 || p[i] == 76
}

/// The seat id from letter `i` on: `B` and `R` set bit `9 - i`.
pub open spec fn bsp_val(p: Seq<u8>, i: int) -> int
    decreases 10 - i,
{
    if i < 0 || i >= 10 {
        0
    } else {
        (if p[i] == 66 || p[i] == 82 {
            p2(9 - i)
        } else {
            0int
        }) + bsp_val(p, i + 1)
    }
}

proof fn lemma_p2_pos(k: int)
    ensures
        p2(k) >= 1,
    decreases k,
{
    if k > 0 {
        lemma_p2_pos(k - 1);
    }
}

proof fn lemma_bsp_val_bounds(p: Seq<u8>, i: int)
    ensures
        0 <= bsp_val(p, i) < p2(10 - i),
    decreases 10 - i,
{
    lemma_p2_pos(10 - i);
    if !(i < 0 || i >= 10) {
        lemma_bsp_val_bounds(p, i + 1);
        assert(p2(10 - i) == 2 * p2(9 - i));
    }
}

/// Converts a pass to its seat id.
///
/// Returns the id exactly when the pass has ten partition letters,
/// and `None` otherwise.
#[verifier::loop_isolation(false)]
pub fn bsp_to_id(pass: &Vec<u8>) -> (r: Option<u16>)
    ensures
        match r {
            Some(v) => bsp_ok(pass@) && v == bsp_val(pass@, 0) && v < 1024,
            None => !bsp_ok(pass@),
        },
{
    if pass.len() < 10 {
        return None;
    }
    let mut id: u16 = 0;
    let mut place: u16 = 512;
    let mut i: usize = 0;
    proof {
        lemma_bsp_val_bounds(pass@, 0);
        assert(p2(10) == 1024 && p2(9) == 512) by {
            reveal_with_fuel(p2, 11);
        }
    }
    while i < 10
        invariant
            0 <= i <= 10,
            pass@.len() >= 10,
            place == p2(9 - i),
            bsp_val(pass@, 0) == id + bsp_val(pass@, i as int) || !bsp_ok(pass@),
            forall|t: int|
                0 <= t < i ==> #[trigger] pass@[t] == 66 || pass@[t] == 82 || pass@[t] == 70
                    || pass@[t] == 76,
            id < 1024,
            id + p2(10 - i) <= 1024,
        decreases 10 - i,
    {
        let b = pass[i];
        if b == 66 || b == 82 {
            proof {
                lemma_bsp_val_bounds(pass@, i as int + 1);
            }
            id = id + place;
        } else if b == 70 || b == 76 {
        } else {
            return None;
        }
        proof {
            lemma_bsp_val_bounds(pass@, i as int + 1);
            if i < 9 {
                assert(p2(9 - i) == 2 * p2(9 - i - 1));
            }
        }
        if i < 9 {
            place = place / 2;
        }
        i = i + 1;
    }
    proof {
        assert(bsp_ok(pass@));
    }
    Some(id)
}

/// Some input line is a pass with this seat id.
pub open spec fn has_id(lv: Seq<Seq<u8>>, v: int) -> bool {
    exists|k: int|
        0 <= k < lv.len() && bsp_ok(#[trigger] lv[k]) && bsp_val(lv[k], 0) == v
}

/// Is some input line a pass with seat id `v`?
#[verifier::loop_isolation(false)]
fn has_id_exec(lines: &Vec<Vec<u8>>, v: u16) -> (r: bool)
    ensures
        r == has_id(views_of(lines@), v as int),
{
    let ghost lv = views_of(lines@);
    let mut k: usize = 0;
    while k < lines.len()
        invariant
            0 <= k <= lines@.len(),
            forall|t: int|
                0 <= t < k ==> !(bsp_ok(#[trigger] lv[t]) && bsp_val(lv[t], 0) == v as int),
        decreases lines@.len() - k,
    {
        proof {
            assert(lv[k as int] == lines@[k as int]@);
        }
        match bsp_to_id(&lines[k]) {
            Some(id) => {
                if id == v {
                    return true;
                }
            },
            None => {},
        }
        k = k + 1;
    }
    false
}

/// The highest seat id among the valid passes.
///
/// Returns it exactly when some line is a valid pass, and `None`
/// otherwise.
#[verifier::loop_isolation(false)]
pub fn max_seat_id(lines: &Vec<Vec<u8>>) -> (r: Option<u16>)
    ensures
        match r {
            Some(m) => has_id(views_of(lines@), m as int) && forall|v: int|
                #[trigger] has_id(views_of(lines@), v) ==> v <= m,
            None => forall|k: int| 0 <= k < lines@.len() ==> !bsp_ok(#[trigger] views_of(lines@)[k]),
        },
{
    let ghost lv = views_of(lines@);
    let mut best: u16 = 0;
    let mut found = false;
    let mut k: usize = 0;
    while k < lines.len()
        invariant
            0 <= k <= lines@.len(),
            best < 1024,
            found ==> has_id(lv, best as int),
            forall|t: int|
                0 <= t < k ==> !bsp_ok(#[trigger] lv[t]) || bsp_val(lv[t], 0) <= best as int,
            !found ==> forall|t: int| 0 <= t < k ==> !bsp_ok(#[trigger] lv[t]),
        decreases lines@.len() - k,
    {
        proof {
            assert(lv[k as int] == lines@[k as int]@);
        }
        match bsp_to_id(&lines[k]) {
            Some(id) => {
                if !found || id > best {
                    best = id;
                }
                found = true;
            },
            None => {},
        }
        k = k + 1;
    }
    if found {
        proof {
            assert forall|v: int| #[trigger] has_id(lv, v) implies v <= best as int by {
                let w = choose|t: int|
                    0 <= t < lv.len() && bsp_ok(#[trigger] lv[t]) && bsp_val(lv[t], 0) == v;
                assert(bsp_val(lv[w], 0) <= best as int);
            }
        }
        Some(best)
    } else {
        None
    }
}

/// The seat left for us: walking the sorted ids, the first pair two
/// apart encloses it; equivalently, the lowest taken seat whose next
/// seat is free and the one after taken.
///
/// Returns it exactly when such a seat exists, and `None` otherwise.
#[verifier::loop_isolation(false)]
pub fn my_seat(lines: &Vec<Vec<u8>>) -> (r: Option<u16>)
    ensures
        match r {
            Some(s) => {
                &&& 1 <= s <= 1022
                &&& has_id(views_of(lines@), s - 1)
                &&& !has_id(views_of(lines@), s as int)
                &&& has_id(views_of(lines@), s + 1)
                &&& forall|a: int|
                    0 <= a < s - 1 ==> !(has_id(views_of(lines@), a) && !has_id(
                        views_of(lines@),
                        a + 1,
                    ) && #[trigger] has_id(views_of(lines@), a + 2))
            },
            None => forall|a: int|
                0 <= a <= 1021 ==> !(has_id(views_of(lines@), a) && !has_id(
                    views_of(lines@),
                    a + 1,
                ) && #[trigger] has_id(views_of(lines@), a + 2)),
        },
{
    let ghost lv = views_of(lines@);
    let mut a: u16 = 0;
    while a <= 1021
        invariant
            0 <= a <= 1022,
            forall|t: int|
                0 <= t < a ==> !(has_id(lv, t) && !has_id(lv, t + 1) && #[trigger] has_id(
                    lv,
                    t + 2,
                )),
        decreases 1022 - a,
    {
        if has_id_exec(lines, a) && !has_id_exec(lines, a + 1) && has_id_exec(lines, a + 2) {
            return Some(a + 1);
        }
        a = a + 1;
    }
    None
}

} // verus!
