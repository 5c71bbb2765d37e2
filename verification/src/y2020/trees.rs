//! Tree counting on a repeating map: starting top left and moving a
//! fixed step right and down each time, count the `#` cells met; the
//! map repeats endlessly to the right.  The answer multiplies the
//! counts of five fixed slopes.

use vstd::prelude::*;
use crate::text::views_of;

verus! {

/// A cell is a tree when the line is long enough and holds `#` there.
pub open spec fn tree_hit(line: Seq<u8>, x: int) -> bool {
    0 <= x < line.len() && line[x] == 35
}

/// The trees met from step `k` on: step `k` looks at line `k * down`,
/// column `k * right` wrapped by the map width.
pub open spec fn trees_from(lv: Seq<Seq<u8>>, w: int, right: int, down: int, k: int) -> int
    decreases lv.len() - k,
    via trees_from_decreases
{
    if k < 0 || down < 1 || w < 1 || k * down >= lv.len() {
        0
    } else {
        (if tree_hit(lv[k * down], (k * right) % w) {
            1int
        } else {
            0int
        }) + trees_from(lv, w, right, down, k + 1)
    }
}

#[via_fn]
proof fn trees_from_decreases(lv: Seq<Seq<u8>>, w: int, right: int, down: int, k: int) {
    if !(k < 0 || down < 1 || w < 1 || k * down >= lv.len()) {
        assert(k <= k * down) by (nonlinear_arith)
            requires
                k >= 0,
                down >= 1,
        ;
    }
}

/// Counts the trees met along the slope `(right, down)` on a map of
/// width `width`.
#[verifier::loop_isolation(false)]
pub fn count_trees(lines: &Vec<Vec<u8>>, width: usize, right: usize, down: usize) -> (r: u64)
    requires
        1 <= width <= 0x4000_0000,
        1 <= down <= 0x1000_0000,
        right <= 0x1000_0000,
        lines@.len() <= 0x4000_0000,
    ensures
        r == trees_from(views_of(lines@), width as int, right as int, down as int, 0),
{
    let ghost lv = views_of(lines@);
    let ghost w = width as int;
    let mut count: u64 = 0;
    let mut k: usize = 0;
    let mut li: usize = 0;
    let mut x: usize = 0;
    proof {
        assert(0int * right as int == 0) by (nonlinear_arith);
        assert(0int * down as int == 0) by (nonlinear_arith);
        vstd::arithmetic::div_mod::lemma_small_mod(0 as nat, width as nat);
    }
    while li < lines.len()
        invariant
            0 <= k <= li,
            li <= lines@.len() + down,
            li == k * down,
            x < width,
            x as int == (k * right as int) % w,
            count <= k,
            trees_from(lv, w, right as int, down as int, 0) == count + trees_from(
                lv,
                w,
                right as int,
                down as int,
                k as int,
            ),
        decreases lines@.len() + down - li,
    {
        proof {
            assert(lv[li as int] == lines@[li as int]@);
        }
        let line = &lines[li];
        if x < line.len() && line[x] == 35 {
            proof {
                assert(tree_hit(lv[k as int * down as int], (k as int * right as int) % w));
            }
            count = count + 1;
        } else {
            proof {
                assert(!tree_hit(lv[k as int * down as int], (k as int * right as int) % w));
            }
        }
        proof {
            vstd::arithmetic::div_mod::lemma_fundamental_div_mod(
                k as int * right as int,
                w,
            );
            vstd::arithmetic::div_mod::lemma_mod_multiples_vanish(
                (k as int * right as int) / w,
                x as int + right as int,
                w,
            );
            assert((k as int + 1) * right as int == k as int * right as int + right as int)
                by (nonlinear_arith);
            vstd::arithmetic::div_mod::lemma_mod_bound(x as int + right as int, w);
            assert((k as int + 1) * down as int == k as int * down as int + down as int)
                by (nonlinear_arith);
            assert(k as int * down as int <= 0x1000_0000_0000);
        }
        x = (x + right) % width;
        li = li + down;
        k = k + 1;
    }
    proof {
        assert(k as int * down as int >= lv.len()) by (nonlinear_arith)
            requires
                li >= lv.len(),
                li == k as int * down as int,
        ;
        assert(trees_from(lv, w, right as int, down as int, k as int) == 0);
    }
    count
}

/// Multiplies the tree counts of the five fixed slopes.
///
/// Returns the product exactly when no intermediate product exceeds
/// `u64`, and `None` otherwise.
pub open spec fn slope_count(lv: Seq<Seq<u8>>, w: int, right: int, down: int) -> int {
    trees_from(lv, w, right, down, 0)
}

/// The five products, accumulated in the order walked.
pub open spec fn slopes_prefix(lv: Seq<Seq<u8>>, w: int, i: int) -> int {
    let c1 = slope_count(lv, w, 3, 1);
    let c2 = slope_count(lv, w, 1, 1);
    let c3 = slope_count(lv, w, 5, 1);
    let c4 = slope_count(lv, w, 7, 1);
    let c5 = slope_count(lv, w, 1, 2);
    if i <= 0 {
        1
    } else if i == 1 {
        c1
    } else if i == 2 {
        c1 * c2
    } else if i == 3 {
        c1 * c2 * c3
    } else if i == 4 {
        c1 * c2 * c3 * c4
    } else {
        c1 * c2 * c3 * c4 * c5
    }
}

/// Multiplies the tree counts of the slopes (3,1), (1,1), (5,1),
/// (7,1) and (1,2).
///
/// Returns the product exactly when every intermediate product fits
/// in `u64`, and `None` otherwise.
#[verifier::loop_isolation(false)]
pub fn paths_product(lines: &Vec<Vec<u8>>, width: usize) -> (r: Option<u64>)
    requires
        1 <= width <= 0x4000_0000,
        lines@.len() <= 0x4000_0000,
    ensures
        match r {
            Some(v) => v == slopes_prefix(views_of(lines@), width as int, 5) && forall|i: int|
                0 <= i <= 5 ==> #[trigger] slopes_prefix(views_of(lines@), width as int, i)
                    <= u64::MAX,
            None => exists|i: int|
                0 <= i <= 5 && #[trigger] slopes_prefix(views_of(lines@), width as int, i)
                    > u64::MAX,
        },
{
    let ghost lv = views_of(lines@);
    let ghost w = width as int;
    let c1 = count_trees(lines, width, 3, 1);
    let c2 = count_trees(lines, width, 1, 1);
    let c3 = count_trees(lines, width, 5, 1);
    let c4 = count_trees(lines, width, 7, 1);
    let c5 = count_trees(lines, width, 1, 2);
    let p2 = match c1.checked_mul(c2) {
        None => {
            proof {
                assert(slopes_prefix(lv, w, 2) > u64::MAX);
            }
            return None;
        },
        Some(p) => p,
    };
    let p3 = match p2.checked_mul(c3) {
        None => {
            proof {
                assert(slopes_prefix(lv, w, 3) > u64::MAX);
            }
            return None;
        },
        Some(p) => p,
    };
    let p4 = match p3.checked_mul(c4) {
        None => {
            proof {
                assert(slopes_prefix(lv, w, 4) > u64::MAX);
            }
            return None;
        },
        Some(p) => p,
    };
    let p5 = match p4.checked_mul(c5) {
        None => {
            proof {
                assert(slopes_prefix(lv, w, 5) > u64::MAX);
            }
            return None;
        },
        Some(p) => p,
    };
    Some(p5)
}

} // verus!
