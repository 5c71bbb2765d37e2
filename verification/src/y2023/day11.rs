//! Cosmic expansion: galaxies `#` sit in an image whose empty rows and
//! columns are stretched.  The answer sums, over every pair of
//! galaxies, the taxicab distance with each empty row and column
//! between them counted `factor` times.

use vstd::prelude::*;
use crate::grid::{flat_of, flatten, rect, width_of, lemma_flat_len};
use crate::text::views_of;

verus! {

/// Largest accepted grid dimension and expansion factor.
pub const DIM_MAX: usize = 0x4000_0000;

/// The galaxy coordinates, scanning the flat image from index `i`.
pub open spec fn gals_from(f: Seq<u8>, w: int, i: int) -> Seq<(int, int)>
    decreases f.len() - i,
{
    if i < 0 || i >= f.len() || w <= 0 {
        Seq::empty()
    } else {
        (if f[i] == 35 {
            seq![(i % w, i / w)]
        } else {
            Seq::empty()
        }) + gals_from(f, w, i + 1)
    }
}

/// Row `r` of the image is all empty space.
pub open spec fn empty_row(lv: Seq<Seq<u8>>, r: int) -> bool {
    forall|x: int| 0 <= x < lv[r].len() ==> #[trigger] lv[r][x] == 46
}

/// Column `c` of the image is all empty space.
pub open spec fn empty_col(lv: Seq<Seq<u8>>, c: int) -> bool {
    forall|y: int| 0 <= y < lv.len() ==> #[trigger] lv[y][c] == 46
}

/// How many empty columns lie strictly between `lo` and `hi`,
/// scanning columns below `c`.
pub open spec fn cols_between(lv: Seq<Seq<u8>>, lo: int, hi: int, c: int) -> int
    decreases c,
{
    if c <= 0 {
        0
    } else {
        cols_between(lv, lo, hi, c - 1) + if lo < c - 1 < hi && empty_col(lv, c - 1) {
            1int
        } else {
            0int
        }
    }
}

/// How many empty rows lie strictly between `lo` and `hi`, scanning
/// rows below `r`.
pub open spec fn rows_between(lv: Seq<Seq<u8>>, lo: int, hi: int, r: int) -> int
    decreases r,
{
    if r <= 0 {
        0
    } else {
        rows_between(lv, lo, hi, r - 1) + if lo < r - 1 < hi && empty_row(lv, r - 1) {
            1int
        } else {
            0int
        }
    }
}

pub open spec fn min2(a: int, b: int) -> int {
    if a <= b {
        a
    } else {
        b
    }
}

pub open spec fn max2(a: int, b: int) -> int {
    if a <= b {
        b
    } else {
        a
    }
}

/// The expanded distance between two galaxies: the taxicab distance
/// plus `factor - 1` for each empty row or column strictly between.
pub open spec fn pair_dist(lv: Seq<Seq<u8>>, factor: int, a: (int, int), b: (int, int)) -> int {
    let w = width_of(lv);
    let h = lv.len() as int;
    max2(a.0, b.0) - min2(a.0, b.0) + max2(a.1, b.1) - min2(a.1, b.1) + (factor - 1) * cols_between(
        lv,
        min2(a.0, b.0),
        max2(a.0, b.0),
        w,
    ) + (factor - 1) * rows_between(lv, min2(a.1, b.1), max2(a.1, b.1), h)
}

/// The distances from galaxy `i` to the galaxies after `j`.
pub open spec fn dists_from(lv: Seq<Seq<u8>>, factor: int, gs: Seq<(int, int)>, i: int, j: int) -> int
    decreases gs.len() - j,
{
    if j < 0 || j >= gs.len() || i < 0 || i >= gs.len() {
        0
    } else {
        pair_dist(lv, factor, gs[i], gs[j]) + dists_from(lv, factor, gs, i, j + 1)
    }
}

/// The sum of the distances of every unordered galaxy pair.
pub open spec fn all_dists(lv: Seq<Seq<u8>>, factor: int, gs: Seq<(int, int)>, i: int) -> int
    decreases gs.len() - i,
{
    if i < 0 || i >= gs.len() {
        0
    } else {
        dists_from(lv, factor, gs, i, i + 1) + all_dists(lv, factor, gs, i + 1)
    }
}

/// The part-two answer for an expansion factor.
pub open spec fn expanded_sum(lv: Seq<Seq<u8>>, factor: int) -> int {
    all_dists(lv, factor, gals_from(flat_of(lv), width_of(lv), 0), 0)
}

/// The image is well formed: rectangular and inside the accepted
/// dimensions.
pub open spec fn image_ok(lv: Seq<Seq<u8>>) -> bool {
    &&& rect(lv)
    &&& lv.len() <= DIM_MAX
    &&& width_of(lv) <= DIM_MAX
}

/// The coordinate pairs a machine list denotes.
pub open spec fn coords_model(v: Seq<(i64, i64)>) -> Seq<(int, int)> {
    Seq::new(v.len(), |k: int| (v[k].0 as int, v[k].1 as int))
}

proof fn lemma_cols_between_bounds(lv: Seq<Seq<u8>>, lo: int, hi: int, c: int)
    ensures
        0 <= cols_between(lv, lo, hi, c) <= (if c >= 0 {
            c
        } else {
            0int
        }),
    decreases c,
{
    if c > 0 {
        lemma_cols_between_bounds(lv, lo, hi, c - 1);
    }
}

proof fn lemma_rows_between_bounds(lv: Seq<Seq<u8>>, lo: int, hi: int, r: int)
    ensures
        0 <= rows_between(lv, lo, hi, r) <= (if r >= 0 {
            r
        } else {
            0int
        }),
    decreases r,
{
    if r > 0 {
        lemma_rows_between_bounds(lv, lo, hi, r - 1);
    }
}

proof fn lemma_pair_dist_nonneg(lv: Seq<Seq<u8>>, factor: int, a: (int, int), b: (int, int))
    requires
        factor >= 1,
    ensures
        pair_dist(lv, factor, a, b) >= 0,
{
    let w = width_of(lv);
    let h = lv.len() as int;
    lemma_cols_between_bounds(lv, min2(a.0, b.0), max2(a.0, b.0), w);
    lemma_rows_between_bounds(lv, min2(a.1, b.1), max2(a.1, b.1), h);
    assert((factor - 1) * cols_between(lv, min2(a.0, b.0), max2(a.0, b.0), w) >= 0)
        by (nonlinear_arith)
        requires
            factor >= 1,
            cols_between(lv, min2(a.0, b.0), max2(a.0, b.0), w) >= 0,
    ;
    assert((factor - 1) * rows_between(lv, min2(a.1, b.1), max2(a.1, b.1), h) >= 0)
        by (nonlinear_arith)
        requires
            factor >= 1,
            rows_between(lv, min2(a.1, b.1), max2(a.1, b.1), h) >= 0,
    ;
}

proof fn lemma_dists_from_nonneg(lv: Seq<Seq<u8>>, factor: int, gs: Seq<(int, int)>, i: int, j: int)
    requires
        factor >= 1,
    ensures
        dists_from(lv, factor, gs, i, j) >= 0,
    decreases gs.len() - j,
{
    if !(j < 0 || j >= gs.len() || i < 0 || i >= gs.len()) {
        lemma_pair_dist_nonneg(lv, factor, gs[i], gs[j]);
        lemma_dists_from_nonneg(lv, factor, gs, i, j + 1);
    }
}

proof fn lemma_all_dists_nonneg(lv: Seq<Seq<u8>>, factor: int, gs: Seq<(int, int)>, i: int)
    requires
        factor >= 1,
    ensures
        all_dists(lv, factor, gs, i) >= 0,
    decreases gs.len() - i,
{
    if 0 <= i < gs.len() {
        lemma_dists_from_nonneg(lv, factor, gs, i, i + 1);
        lemma_all_dists_nonneg(lv, factor, gs, i + 1);
    }
}

/// The rows of the image that are all empty space.
#[verifier::loop_isolation(false)]
pub fn empty_rows(lines: &Vec<Vec<u8>>) -> (r: Vec<bool>)
    ensures
        r@.len() == lines@.len(),
        forall|y: int| 0 <= y < r@.len() ==> #[trigger] r@[y] == empty_row(views_of(lines@), y),
{
    let ghost lv = views_of(lines@);
    let mut r: Vec<bool> = Vec::new();
    let mut y: usize = 0;
    while y < lines.len()
        invariant
            0 <= y <= lines@.len(),
            r@.len() == y,
            forall|t: int| 0 <= t < y ==> #[trigger] r@[t] == empty_row(lv, t),
        decreases lines@.len() - y,
    {
        let line = &lines[y];
        let mut e: bool = true;
        let mut x: usize = 0;
        while x < line.len()
            invariant
                0 <= x <= line@.len(),
                line@ == lines@[y as int]@,
                y < lines@.len(),
                e == forall|t: int| 0 <= t < x ==> #[trigger] lv[y as int][t] == 46,
            decreases line@.len() - x,
        {
            proof {
                assert(lv[y as int][x as int] == line@[x as int]);
            }
            if line[x] != 46 {
                e = false;
            }
            x = x + 1;
        }
        proof {
            assert(lv[y as int].len() == line@.len());
        }
        r.push(e);
        y = y + 1;
    }
    r
}

/// The columns of the image that are all empty space.
#[verifier::loop_isolation(false)]
pub fn empty_cols(lines: &Vec<Vec<u8>>) -> (r: Vec<bool>)
    requires
        rect(views_of(lines@)),
    ensures
        r@.len() == width_of(views_of(lines@)),
        forall|c: int| 0 <= c < r@.len() ==> #[trigger] r@[c] == empty_col(views_of(lines@), c),
{
    let ghost lv = views_of(lines@);
    let w: usize = if lines.len() == 0 {
        0
    } else {
        lines[0].len()
    };
    proof {
        if lines@.len() > 0 {
            assert(lv[0] == lines@[0]@);
        }
        assert(width_of(lv) == w as int);
    }
    let mut r: Vec<bool> = Vec::new();
    let mut c: usize = 0;
    while c < w
        invariant
            0 <= c <= w,
            w as int == width_of(lv),
            r@.len() == c,
            forall|t: int| 0 <= t < c ==> #[trigger] r@[t] == empty_col(lv, t),
        decreases w - c,
    {
        let mut e: bool = true;
        let mut y: usize = 0;
        while y < lines.len()
            invariant
                0 <= y <= lines@.len(),
                c < w,
                w as int == width_of(lv),
                e == forall|t: int| 0 <= t < y ==> #[trigger] lv[t][c as int] == 46,
            decreases lines@.len() - y,
        {
            proof {
                assert(lv[y as int] == lines@[y as int]@);
                assert(lv[y as int].len() == width_of(lv));
            }
            if lines[y][c] != 46 {
                e = false;
            }
            y = y + 1;
        }
        r.push(e);
        c = c + 1;
    }
    r
}

/// Sums the expanded distances of every galaxy pair under the given
/// expansion factor.
///
/// Returns the sum exactly when the image is well formed, the factor
/// between one and the accepted maximum, and the sum fits in `u64`;
/// returns `None` otherwise.
#[verifier::loop_isolation(false)]
pub fn solve_part2(lines: &Vec<Vec<u8>>, factor: usize) -> (r: Option<u64>)
    ensures
        match r {
            Some(v) => {
                &&& image_ok(views_of(lines@))
                &&& 1 <= factor <= DIM_MAX
                &&& v == expanded_sum(views_of(lines@), factor as int)
            },
            None => !(image_ok(views_of(lines@)) && 1 <= factor <= DIM_MAX && expanded_sum(
                views_of(lines@),
                factor as int,
            ) <= u64::MAX),
        },
{
    let ghost lv = views_of(lines@);
    if factor == 0 || factor > DIM_MAX || lines.len() > DIM_MAX {
        return None;
    }
    let f = match flatten(lines) {
        None => {
            return None;
        },
        Some(f) => f,
    };
    let w: usize = if lines.len() == 0 {
        0
    } else {
        lines[0].len()
    };
    proof {
        if lines@.len() > 0 {
            assert(lv[0] == lines@[0]@);
        }
        assert(width_of(lv) == w as int);
        lemma_flat_len(lv);
    }
    if w > DIM_MAX {
        return None;
    }
    let ghost gspec = gals_from(f@, w as int, 0);
    // collect the galaxies
    let mut gals: Vec<(i64, i64)> = Vec::new();
    let mut i: usize = 0;
    proof {
        assert(coords_model(gals@) + gals_from(f@, w as int, 0) =~= gals_from(f@, w as int, 0));
    }
    while i < f.len()
        invariant
            0 <= i <= f@.len(),
            w as int == width_of(lv),
            f@ == flat_of(lv),
            f@.len() == lv.len() * width_of(lv),
            gspec == coords_model(gals@) + gals_from(f@, w as int, i as int),
            forall|t: int|
                0 <= t < gals@.len() ==> 0 <= (#[trigger] gals@[t]).0 < w && 0 <= gals@[t].1
                    <= lv.len(),
        decreases f@.len() - i,
    {
        if w == 0 {
            proof {
                assert(f@.len() == 0) by (nonlinear_arith)
                    requires
                        f@.len() == lv.len() * width_of(lv),
                        width_of(lv) == 0,
                ;
            }
        }
        let b = f[i];
        if b == 35 {
            proof {
                vstd::arithmetic::div_mod::lemma_mod_bound(i as int, w as int);
                vstd::arithmetic::div_mod::lemma_div_pos_is_pos(i as int, w as int);
                vstd::arithmetic::div_mod::lemma_fundamental_div_mod(i as int, w as int);
                assert((i as int) / (w as int) <= lv.len()) by (nonlinear_arith)
                    requires
                        (i as int) == (w as int) * ((i as int) / (w as int)) + (i as int) % (
                        w as int),
                        0 <= (i as int) % (w as int),
                        (i as int) < lv.len() * (w as int),
                        (w as int) >= 1,
                        (i as int) / (w as int) >= 0,
                ;
            }
            let ghost pre = coords_model(gals@);
            gals.push(((i % w) as i64, (i / w) as i64));
            proof {
                assert(coords_model(gals@) =~= pre.push(
                    ((i % w) as int, (i / w) as int),
                )) by {
                    assert(forall|k: int|
                        0 <= k < pre.len() ==> coords_model(gals@)[k] == pre[k]);
                }
                assert(gspec =~= coords_model(gals@) + gals_from(f@, w as int, i + 1));
            }
        } else {
            proof {
                assert(gspec =~= coords_model(gals@) + gals_from(f@, w as int, i + 1));
            }
        }
        i = i + 1;
    }
    proof {
        assert(gals_from(f@, w as int, f@.len() as int) =~= Seq::<(int, int)>::empty());
        assert(coords_model(gals@) =~= gspec);
    }
    let erows = empty_rows(lines);
    let ecols = empty_cols(lines);
    let ghost n = gals@.len() as int;
    let mut acc: u64 = 0;
    let mut a: usize = 0;
    proof {
        lemma_all_dists_nonneg(lv, factor as int, gspec, 0);
    }
    while a < gals.len()
        invariant
            0 <= a <= gals@.len(),
            w as int == width_of(lv),
            erows@.len() == lv.len(),
            ecols@.len() == width_of(lv),
            forall|y: int|
                0 <= y < erows@.len() ==> #[trigger] erows@[y] == empty_row(lv, y),
            forall|c2: int|
                0 <= c2 < ecols@.len() ==> #[trigger] ecols@[c2] == empty_col(lv, c2),
            gspec == coords_model(gals@),
            forall|t: int|
                0 <= t < gals@.len() ==> 0 <= (#[trigger] gals@[t]).0 < w && 0 <= gals@[t].1
                    <= lv.len(),
            1 <= factor <= DIM_MAX,
            lv.len() <= DIM_MAX,
            w <= DIM_MAX,
            expanded_sum(lv, factor as int) == acc + all_dists(lv, factor as int, gspec, a as int),
        decreases gals@.len() - a,
    {
        let mut b: usize = a + 1;
        proof {
            lemma_all_dists_nonneg(lv, factor as int, gspec, a as int + 1);
        }
        while b < gals.len()
            invariant
                a < b <= gals@.len() || b == a + 1,
                b >= a + 1,
                a < gals@.len(),
                expanded_sum(lv, factor as int) == acc + dists_from(
                    lv,
                    factor as int,
                    gspec,
                    a as int,
                    b as int,
                ) + all_dists(lv, factor as int, gspec, a as int + 1),
            decreases gals@.len() - b,
        {
            let (ax, ay) = gals[a];
            let (bx, by) = gals[b];
            proof {
                assert(gspec[a as int] == (ax as int, ay as int));
                assert(gspec[b as int] == (bx as int, by as int));
                lemma_pair_dist_nonneg(lv, factor as int, gspec[a as int], gspec[b as int]);
                lemma_dists_from_nonneg(lv, factor as int, gspec, a as int, b as int + 1);
                lemma_all_dists_nonneg(lv, factor as int, gspec, a as int + 1);
            }
            let lox = if ax <= bx {
                ax
            } else {
                bx
            };
            let hix = if ax <= bx {
                bx
            } else {
                ax
            };
            let loy = if ay <= by {
                ay
            } else {
                by
            };
            let hiy = if ay <= by {
                by
            } else {
                ay
            };
            // count the empty columns and rows strictly between
            let mut ccnt: u64 = 0;
            let mut c: usize = 0;
            while c < w
                invariant
                    0 <= c <= w,
                    ccnt == cols_between(lv, lox as int, hix as int, c as int),
                    ccnt <= c,
                    ecols@.len() == width_of(lv),
                    w as int == width_of(lv),
                    forall|c2: int|
                        0 <= c2 < ecols@.len() ==> #[trigger] ecols@[c2] == empty_col(lv, c2),
                decreases w - c,
            {
                if lox < c as i64 && (c as i64) < hix && ecols[c] {
                    ccnt = ccnt + 1;
                }
                c = c + 1;
            }
            let mut rcnt: u64 = 0;
            let mut rr: usize = 0;
            while rr < lines.len()
                invariant
                    0 <= rr <= lv.len(),
                    rcnt == rows_between(lv, loy as int, hiy as int, rr as int),
                    rcnt <= rr,
                    erows@.len() == lv.len(),
                    forall|y: int|
                        0 <= y < erows@.len() ==> #[trigger] erows@[y] == empty_row(lv, y),
                decreases lv.len() - rr,
            {
                if loy < rr as i64 && (rr as i64) < hiy && erows[rr] {
                    rcnt = rcnt + 1;
                }
                rr = rr + 1;
            }
            proof {
                assert((factor - 1) as int * (ccnt as int) <= 0x1000_0000_0000_0000)
                    by (nonlinear_arith)
                    requires
                        0 <= (factor - 1) as int <= 0x4000_0000,
                        0 <= ccnt <= 0x4000_0000,
                ;
                assert((factor - 1) as int * (rcnt as int) <= 0x1000_0000_0000_0000)
                    by (nonlinear_arith)
                    requires
                        0 <= (factor - 1) as int <= 0x4000_0000,
                        0 <= rcnt <= 0x4000_0000,
                ;
            }
            let d: u64 = (hix - lox) as u64 + (hiy - loy) as u64 + (factor as u64 - 1) * ccnt + (
            factor as u64 - 1) * rcnt;
            proof {
                assert(d == pair_dist(lv, factor as int, gspec[a as int], gspec[b as int]));
            }
            if acc > u64::MAX - d {
                return None;
            }
            acc = acc + d;
            b = b + 1;
        }
        a = a + 1;
        proof {
            assert(dists_from(lv, factor as int, gspec, a - 1, gals@.len() as int) == 0);
        }
    }
    proof {
        assert(all_dists(lv, factor as int, gspec, gals@.len() as int) == 0);
    }
    Some(acc)
}

/// Sums the expanded distances with each empty row and column doubled.
///
/// Returns the sum exactly when the image is well formed and the sum
/// fits in `u64`, and `None` otherwise.
pub fn solve_part1(lines: &Vec<Vec<u8>>) -> (r: Option<u64>)
    ensures
        match r {
            Some(v) => image_ok(views_of(lines@)) && v == expanded_sum(views_of(lines@), 2),
            None => !(image_ok(views_of(lines@)) && expanded_sum(views_of(lines@), 2)
                <= u64::MAX),
        },
{
    solve_part2(lines, 2)
}

} // verus!
