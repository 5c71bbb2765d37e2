//! Engine schematic: the input grid is flattened row by row; maximal
//! digit runs in the flat map are part numbers.  Part one sums the runs
//! that touch a symbol — any byte that is neither `.` nor a digit —
//! diagonals included.  Part two finds every `*` adjacent to exactly
//! two runs and sums the products of their values.

use vstd::prelude::*;
use crate::text::{all_digits, digits_val, is_digit, parse_u64, subvec, views_of,
    lemma_digits_val_nonneg};
use crate::grid::{at_spec, flat_of, flatten, rect, width_of, lemma_flat_len};

verus! {

/// Largest accepted grid dimension, so that flat indices stay far
/// inside `i64`.
pub const DIM_MAX: usize = 0x4000_0000;

/// The end of the digit run starting at `i`: the first index at or
/// after `i` without a digit.
pub open spec fn run_end(f: Seq<u8>, i: int) -> int
    decreases f.len() - i,
{
    if i < 0 || i >= f.len() || !is_digit(f[i]) {
        i
    } else {
        run_end(f, i + 1)
    }
}

proof fn lemma_run_end_bounds(f: Seq<u8>, i: int)
    requires
        0 <= i <= f.len(),
    ensures
        i <= run_end(f, i) <= f.len(),
    decreases f.len() - i,
{
    if !(i >= f.len() || !is_digit(f[i])) {
        lemma_run_end_bounds(f, i + 1);
    }
}

/// `run_end` is where the digits stop.
proof fn lemma_run_end_char(f: Seq<u8>, i: int, j: int)
    requires
        0 <= i <= j <= f.len(),
        forall|t: int| i <= t < j ==> is_digit(#[trigger] f[t]),
        j == f.len() || !is_digit(f[j]),
    ensures
        run_end(f, i) == j,
    decreases j - i,
{
    if i < j {
        lemma_run_end_char(f, i + 1, j);
    }
}

/// The maximal digit runs of `f` at or after `i`, each as its start
/// and end index.
pub open spec fn runs_from(f: Seq<u8>, i: int) -> Seq<(int, int)>
    decreases f.len() - i,
    via runs_from_decreases
{
    if i < 0 || i >= f.len() {
        Seq::empty()
    } else if is_digit(f[i]) {
        seq![(i, run_end(f, i))] + runs_from(f, run_end(f, i))
    } else {
        runs_from(f, i + 1)
    }
}

#[via_fn]
proof fn runs_from_decreases(f: Seq<u8>, i: int) {
    if 0 <= i < f.len() && is_digit(f[i]) {
        lemma_run_end_bounds(f, i + 1);
    }
}

/// All the part-number runs of the flat map.
pub open spec fn runs_of(f: Seq<u8>) -> Seq<(int, int)> {
    runs_from(f, 0)
}

/// The number a run denotes.
pub open spec fn run_val(f: Seq<u8>, r: (int, int)) -> int {
    digits_val(f.subrange(r.0, r.1))
}

/// `(x, y)` lies in the neighbourhood of run `r`: beside it, or in
/// the row above or below, diagonals included.  Row and columns come
/// straight from the flat indices, so a run crossing a row boundary
/// keeps its raw coordinates.
pub open spec fn nbhd(w: int, r: (int, int), x: int, y: int) -> bool {
    let sx = r.0 % w;
    let ex = r.1 % w;
    let ry = r.0 / w;
    ||| (y == ry - 1 && sx - 1 <= x <= ex)
    ||| (y == ry && (x == sx - 1 || x == ex))
    ||| (y == ry + 1 && sx - 1 <= x <= ex)
}

/// A symbol: any byte that is neither an empty cell nor a digit.
pub open spec fn is_symbol(b: u8) -> bool {
    b != 46 && !is_digit(b)
}

/// Some neighbour of the run holds a symbol.
pub open spec fn near_symbol(f: Seq<u8>, w: int, r: (int, int)) -> bool {
    exists|x: int, y: int| #[trigger] nbhd(w, r, x, y) && is_symbol(at_spec(f, w, x, y))
}

/// What a run adds to the part-one answer.
pub open spec fn p1_contrib(f: Seq<u8>, w: int, r: (int, int)) -> int {
    if near_symbol(f, w, r) {
        run_val(f, r)
    } else {
        0
    }
}

/// The part-one answer over a list of runs.
pub open spec fn sum_runs(f: Seq<u8>, w: int, rs: Seq<(int, int)>) -> int
    decreases rs.len(),
{
    if rs.len() == 0 {
        0
    } else {
        sum_runs(f, w, rs.drop_last()) + p1_contrib(f, w, rs.last())
    }
}

/// A part-one input is well formed: rectangular, inside the accepted
/// dimensions, and every part number fits in `u64`.
pub open spec fn part1_ok(lv: Seq<Seq<u8>>) -> bool {
    &&& rect(lv)
    &&& lv.len() <= DIM_MAX
    &&& width_of(lv) <= DIM_MAX
    &&& forall|k: int|
        0 <= k < runs_of(flat_of(lv)).len() ==> run_val(
            flat_of(lv),
            #[trigger] runs_of(flat_of(lv))[k],
        ) <= u64::MAX
    &&& sum_runs(flat_of(lv), width_of(lv), runs_of(flat_of(lv))) <= u64::MAX
}

/// The part-one answer of the input.
pub open spec fn part1_val(lv: Seq<Seq<u8>>) -> int {
    sum_runs(flat_of(lv), width_of(lv), runs_of(flat_of(lv)))
}

/// Scans the flat map for its digit runs and their values.
///
/// Returns the runs and values exactly when every value fits in
/// `u64`, and `None` otherwise.
#[verifier::loop_isolation(false)]
fn scan_runs(f: &Vec<u8>) -> (r: Option<(Vec<(usize, usize)>, Vec<u64>)>)
    ensures
        match r {
            Some((rs, vs)) => {
                &&& rs@.len() == runs_of(f@).len()
                &&& vs@.len() == rs@.len()
                &&& forall|k: int|
                    0 <= k < rs@.len() ==> (#[trigger] rs@[k]).0 as int == runs_of(f@)[k].0 && rs@[
                        k
                    ].1 as int == runs_of(f@)[k].1
                &&& forall|k: int|
                    0 <= k < vs@.len() ==> #[trigger] vs@[k] as int == run_val(f@, runs_of(f@)[k])
                &&& forall|k: int|
                    0 <= k < runs_of(f@).len() ==> run_val(f@, #[trigger] runs_of(f@)[k])
                        <= u64::MAX
            },
            None => exists|k: int|
                0 <= k < runs_of(f@).len() && run_val(f@, #[trigger] runs_of(f@)[k]) > u64::MAX,
        },
{
    let n = f.len();
    let mut rs: Vec<(usize, usize)> = Vec::new();
    let mut vs: Vec<u64> = Vec::new();
    let mut i: usize = 0;
    proof {
        assert(runs_of(f@) == runs_from(f@, 0));
    }
    while i < n
        invariant
            0 <= i <= n,
            rs@.len() == vs@.len(),
            runs_of(f@) == runs_from(f@, 0),
            runs_from(f@, 0) =~= seq_pairs(rs@) + runs_from(f@, i as int),
            forall|k: int|
                0 <= k < vs@.len() ==> #[trigger] vs@[k] as int == run_val(f@, seq_pairs(rs@)[k]),
            forall|k: int|
                0 <= k < rs@.len() ==> run_val(f@, #[trigger] seq_pairs(rs@)[k]) <= u64::MAX,
        decreases n - i,
    {
        let b = f[i];
        if b < 48 || b > 57 {
            proof {
                assert(runs_from(f@, i as int) == runs_from(f@, i + 1));
            }
            i = i + 1;
        } else {
            let start = i;
            i = i + 1;
            while i < n && 48 <= f[i] && f[i] <= 57
                invariant
                    start < i <= n,
                    forall|t: int| start <= t < i ==> is_digit(#[trigger] f@[t]),
                decreases n - i,
            {
                i = i + 1;
            }
            proof {
                lemma_run_end_char(f@, start as int, i as int);
                assert(runs_from(f@, start as int) == seq![(start as int, i as int)] + runs_from(
                    f@,
                    i as int,
                ));
            }
            let digits = subvec(f, start, i);
            proof {
                assert(all_digits(digits@));
                assert(digits@.len() > 0);
            }
            match parse_u64(&digits) {
                Some(v) => {
                    let ghost old_rs = rs@;
                    rs.push((start, i));
                    vs.push(v);
                    proof {
                        assert(seq_pairs(rs@) =~= seq_pairs(old_rs) + seq![(
                            start as int,
                            i as int,
                        )]);
                        assert(runs_from(f@, 0) =~= seq_pairs(rs@) + runs_from(f@, i as int));
                    }
                },
                None => {
                    proof {
                        let k = rs@.len() as int;
                        assert(runs_from(f@, 0)[k] == (start as int, i as int));
                        assert(run_val(f@, runs_from(f@, 0)[k]) > u64::MAX);
                    }
                    return None;
                },
            }
        }
    }
    proof {
        assert(runs_from(f@, n as int) =~= Seq::<(int, int)>::empty());
        assert(seq_pairs(rs@) =~= seq_pairs(rs@) + runs_from(f@, n as int));
        assert forall|k: int| 0 <= k < rs@.len() implies (#[trigger] rs@[k]).0 as int == runs_of(
            f@,
        )[k].0 && rs@[k].1 as int == runs_of(f@)[k].1 by {
            assert(seq_pairs(rs@)[k] == (rs@[k].0 as int, rs@[k].1 as int));
        }
    }
    Some((rs, vs))
}

/// The runs a machine-integer run list denotes.
pub open spec fn seq_pairs(rs: Seq<(usize, usize)>) -> Seq<(int, int)> {
    Seq::new(rs.len(), |k: int| (rs[k].0 as int, rs[k].1 as int))
}

/// The grid byte at `(x, y)`.
fn at_exec(f: &Vec<u8>, w: usize, x: i64, y: i64) -> (b: u8)
    requires
        f@.len() <= 0x1000_0000_0000_0000,
        w <= DIM_MAX,
        -2 <= x <= 0x1000_0000_0000_0000,
        -2 <= y <= 0x4000_0002,
    ensures
        b == at_spec(f@, w as int, x as int, y as int),
{
    if x < 0 || y < 0 {
        return 46;
    }
    proof {
        assert(0 <= (y as int) * (w as int) <= 0x1000_0000_8000_0000) by (nonlinear_arith)
            requires
                0 <= y <= 0x4000_0002,
                0 <= w <= 0x4000_0000,
        ;
    }
    let idx = x + y * (w as i64);
    if idx < f.len() as i64 {
        f[idx as usize]
    } else {
        46
    }
}

/// Does some neighbour of the run `(s, e)` hold a symbol?
#[verifier::loop_isolation(false)]
fn run_near_symbol(f: &Vec<u8>, w: usize, s: usize, e: usize) -> (b: bool)
    requires
        f@.len() <= 0x1000_0000_0000_0000,
        f@.len() <= DIM_MAX * w,
        0 < w <= DIM_MAX,
        s < e <= f@.len(),
    ensures
        b == near_symbol(f@, w as int, (s as int, e as int)),
{
    let ghost r = (s as int, e as int);
    let sx = (s % w) as i64;
    let ex = (e % w) as i64;
    let ry = (s / w) as i64;
    proof {
        assert(sx == r.0 % (w as int) && ex == r.1 % (w as int) && ry == r.0 / (w as int));
        vstd::arithmetic::div_mod::lemma_fundamental_div_mod(s as int, w as int);
        assert(ry <= 0x4000_0000) by (nonlinear_arith)
            requires
                0 < w <= DIM_MAX,
                (s as int) == (w as int) * (s as int / w as int) + (s as int) % (w as int),
                0 <= (s as int) % (w as int),
                ry == s as int / w as int,
                (s as int) < DIM_MAX * (w as int),
        ;
    }
    // the row above and the row below
    let mut dy: i64 = -1;
    while dy <= 1
        invariant
            -1 <= dy <= 2,
            forall|x: int, y: int|
                #[trigger] nbhd(w as int, r, x, y) && y == ry - 1 && dy > -1 ==> !is_symbol(
                    at_spec(f@, w as int, x, y),
                ),
            forall|x: int, y: int|
                #[trigger] nbhd(w as int, r, x, y) && y == ry && dy > 0 ==> !is_symbol(
                    at_spec(f@, w as int, x, y),
                ),
            forall|x: int, y: int|
                #[trigger] nbhd(w as int, r, x, y) && y == ry + 1 && dy > 1 ==> !is_symbol(
                    at_spec(f@, w as int, x, y),
                ),
        decreases 2 - dy,
    {
        if dy == 0 {
            // the two side cells
            let b1 = at_exec(f, w, sx - 1, ry);
            if b1 != 46 && (b1 < 48 || b1 > 57) {
                proof {
                    assert(nbhd(w as int, r, sx - 1, ry as int));
                    assert(is_symbol(b1));
                }
                return true;
            }
            let b2 = at_exec(f, w, ex, ry);
            if b2 != 46 && (b2 < 48 || b2 > 57) {
                proof {
                    assert(nbhd(w as int, r, ex as int, ry as int));
                    assert(is_symbol(b2));
                }
                return true;
            }
            proof {
                assert forall|x: int, y: int|
                    #[trigger] nbhd(w as int, r, x, y) && y == ry implies !is_symbol(
                    at_spec(f@, w as int, x, y),
                ) by {}
            }
        } else {
            let y = ry + dy;
            let mut x: i64 = sx - 1;
            while x <= ex
                invariant
                    sx - 1 <= x,
                    y == ry + dy,
                    dy == -1 || dy == 1,
                    forall|t: int|
                        sx - 1 <= t < x ==> !is_symbol(at_spec(f@, w as int, t, y as int)),
                decreases ex + 1 - x,
            {
                let b = at_exec(f, w, x, y);
                if b != 46 && (b < 48 || b > 57) {
                    proof {
                        assert(nbhd(w as int, r, x as int, y as int));
                        assert(is_symbol(b));
                    }
                    return true;
                }
                x = x + 1;
            }
            proof {
                assert forall|x2: int, y2: int|
                    #[trigger] nbhd(w as int, r, x2, y2) && y2 == y implies !is_symbol(
                    at_spec(f@, w as int, x2, y2),
                ) by {}
            }
        }
        dy = dy + 1;
    }
    proof {
        assert forall|x: int, y: int| #[trigger] nbhd(w as int, r, x, y) implies !is_symbol(
            at_spec(f@, w as int, x, y),
        ) by {
            assert(y == ry - 1 || y == ry || y == ry + 1);
        }
    }
    false
}

/// Sums over prefixes of the run list never shrink.
proof fn lemma_sum_runs_mono(f: Seq<u8>, w: int, rs: Seq<(int, int)>, i: int)
    requires
        0 <= i <= rs.len(),
        forall|k: int| 0 <= k < rs.len() ==> all_digits(f.subrange((#[trigger] rs[k]).0, rs[k].1)),
    ensures
        sum_runs(f, w, rs.take(i)) <= sum_runs(f, w, rs),
        sum_runs(f, w, rs) >= 0,
    decreases rs.len(),
{
    if rs.len() > 0 {
        lemma_digits_val_nonneg(f.subrange(rs.last().0, rs.last().1));
        assert(rs.drop_last() =~= rs.take(rs.len() - 1));
        assert(forall|k: int|
            0 <= k < rs.len() - 1 ==> #[trigger] rs.drop_last()[k] == rs[k]);
        if i == rs.len() {
            assert(rs.take(i) =~= rs);
            lemma_sum_runs_mono(f, w, rs.drop_last(), rs.len() - 1);
        } else {
            assert(rs.take(i) =~= rs.drop_last().take(i));
            lemma_sum_runs_mono(f, w, rs.drop_last(), i);
        }
    } else {
        assert(rs.take(i) =~= rs);
    }
}

/// Every run of the flat map is a nonempty digit range.
proof fn lemma_runs_digits(f: Seq<u8>, i: int)
    requires
        0 <= i,
    ensures
        forall|k: int|
            0 <= k < runs_from(f, i).len() ==> {
                let r = #[trigger] runs_from(f, i)[k];
                0 <= r.0 < r.1 <= f.len() && all_digits(f.subrange(r.0, r.1))
            },
    decreases f.len() - i,
{
    if 0 <= i < f.len() {
        if is_digit(f[i]) {
            let e = run_end(f, i);
            lemma_run_end_bounds(f, i + 1);
            lemma_run_end_digits(f, i);
            lemma_runs_digits(f, e);
            assert forall|k: int| 0 <= k < runs_from(f, i).len() implies {
                let r = #[trigger] runs_from(f, i)[k];
                0 <= r.0 < r.1 <= f.len() && all_digits(f.subrange(r.0, r.1))
            } by {
                if k == 0 {
                    assert(runs_from(f, i)[0] == (i, e));
                    assert(e >= i + 1);
                    assert forall|t: int| 0 <= t < e - i implies is_digit(
                        #[trigger] f.subrange(i, e)[t],
                    ) by {
                        assert(f.subrange(i, e)[t] == f[i + t]);
                    }
                    assert(all_digits(f.subrange(i, e)));
                } else {
                    let r = runs_from(f, e)[k - 1];
                    assert(0 <= r.0 < r.1 <= f.len() && all_digits(f.subrange(r.0, r.1)));
                    assert(runs_from(f, i)[k] == r);
                }
            }
        } else {
            lemma_runs_digits(f, i + 1);
            assert forall|k: int| 0 <= k < runs_from(f, i).len() implies {
                let r = #[trigger] runs_from(f, i)[k];
                0 <= r.0 < r.1 <= f.len() && all_digits(f.subrange(r.0, r.1))
            } by {
                let r = runs_from(f, i + 1)[k];
                assert(0 <= r.0 < r.1 <= f.len() && all_digits(f.subrange(r.0, r.1)));
                assert(runs_from(f, i)[k] == r);
            }
        }
    }
}

/// Up to the run's end everything is a digit.
proof fn lemma_run_end_digits(f: Seq<u8>, i: int)
    requires
        0 <= i <= f.len(),
    ensures
        forall|t: int| i <= t < run_end(f, i) ==> is_digit(#[trigger] f[t]),
        run_end(f, i) <= f.len(),
    decreases f.len() - i,
{
    if i < f.len() && is_digit(f[i]) {
        lemma_run_end_digits(f, i + 1);
    }
}

/// Sums the values of the part-number runs touching a symbol.
///
/// Returns the sum exactly when the input is rectangular, inside the
/// accepted dimensions, and every part number and the sum fit in
/// `u64`; returns `None` otherwise.
#[verifier::loop_isolation(false)]
pub fn solve_part1(lines: &Vec<Vec<u8>>) -> (r: Option<u64>)
    ensures
        match r {
            Some(v) => part1_ok(views_of(lines@)) && v == part1_val(views_of(lines@)),
            None => !part1_ok(views_of(lines@)),
        },
{
    let ghost lv = views_of(lines@);
    if lines.len() > DIM_MAX {
        return None;
    }
    let f = match flatten(lines) {
        None => {
            return None;
        },
        Some(f) => f,
    };
    let w: usize = if lines.len() == 0 {
        0
    } else {
        lines[0].len()
    };
    proof {
        if lines@.len() > 0 {
            assert(lv[0] == lines@[0]@);
        }
        assert(width_of(lv) == w as int);
    }
    if w > DIM_MAX {
        return None;
    }
    proof {
        lemma_flat_len(lv);
        assert(f@.len() <= 0x1000_0000_0000_0000) by (nonlinear_arith)
            requires
                f@.len() == lv.len() * width_of(lv),
                0 <= lv.len() <= DIM_MAX as int,
                0 <= width_of(lv) <= DIM_MAX as int,
        ;
    }
    let (rs, vs) = match scan_runs(&f) {
        None => {
            return None;
        },
        Some(p) => p,
    };
    let ghost rr = runs_of(f@);
    proof {
        lemma_runs_digits(f@, 0);
    }
    let mut acc: u64 = 0;
    let mut k: usize = 0;
    proof {
        assert(sum_runs(f@, w as int, rr.take(0)) == 0) by {
            assert(rr.take(0) =~= Seq::<(int, int)>::empty());
        }
    }
    while k < rs.len()
        invariant
            0 <= k <= rs@.len(),
            acc == sum_runs(f@, w as int, rr.take(k as int)),
        decreases rs@.len() - k,
    {
        let (s, e) = rs[k];
        proof {
            assert(rr[k as int] == (s as int, e as int)) by {
                assert(rs@[k as int].0 as int == rr[k as int].0);
            }
            assert(0 < rr[k as int].1 <= f@.len());
            if w == 0 {
                assert(f@.len() == 0) by (nonlinear_arith)
                    requires
                        f@.len() == lv.len() * width_of(lv),
                        width_of(lv) == 0,
                ;
                assert(false);
            }
        }
        proof {
            assert(f@.len() <= DIM_MAX * (w as int)) by (nonlinear_arith)
                requires
                    f@.len() == lv.len() * width_of(lv),
                    width_of(lv) == w as int,
                    0 <= lv.len() <= DIM_MAX as int,
                    0 <= w,
            ;
        }
        let near = run_near_symbol(&f, w, s, e);
        proof {
            assert(rr.take(k + 1).drop_last() =~= rr.take(k as int));
            assert(rr.take(k + 1).last() == rr[k as int]);
        }
        if near {
            let v = vs[k];
            proof {
                assert(v as int == run_val(f@, rr[k as int]));
            }
            if acc > u64::MAX - v {
                proof {
                    lemma_sum_runs_mono(f@, w as int, rr, k + 1);
                }
                return None;
            }
            acc = acc + v;
        }
        k = k + 1;
    }
    proof {
        assert(rr.take(rr.len() as int) =~= rr);
    }
    Some(acc)
}

/// The runs adjacent to `(x, y)`, in run order.
pub open spec fn adj(w: int, rs: Seq<(int, int)>, x: int, y: int) -> Seq<(int, int)>
    decreases rs.len(),
{
    if rs.len() == 0 {
        Seq::empty()
    } else if nbhd(w, rs[0], x, y) {
        seq![rs[0]] + adj(w, rs.drop_first(), x, y)
    } else {
        adj(w, rs.drop_first(), x, y)
    }
}

/// Extending the run prefix by one run extends its adjacency list by
/// that run when it touches `(x, y)`.
proof fn lemma_adj_snoc(w: int, rs: Seq<(int, int)>, j: int, x: int, y: int)
    requires
        0 <= j < rs.len(),
    ensures
        adj(w, rs.take(j + 1), x, y) == adj(w, rs.take(j), x, y) + (if nbhd(w, rs[j], x, y) {
            seq![rs[j]]
        } else {
            Seq::<(int, int)>::empty()
        }),
    decreases j,
{
    if j == 0 {
        assert(rs.take(1) =~= seq![rs[0]]);
        assert(rs.take(1).drop_first() =~= Seq::<(int, int)>::empty());
        assert(rs.take(0) =~= Seq::<(int, int)>::empty());
        if nbhd(w, rs[0], x, y) {
            assert(adj(w, rs.take(1), x, y) =~= seq![rs[0]]);
        }
    } else {
        assert(rs.take(j + 1)[0] == rs[0]);
        assert(rs.take(j + 1).drop_first() =~= rs.drop_first().take(j));
        assert(rs.take(j)[0] == rs[0]);
        assert(rs.take(j).drop_first() =~= rs.drop_first().take(j - 1));
        assert(rs.drop_first()[j - 1] == rs[j]);
        lemma_adj_snoc(w, rs.drop_first(), j - 1, x, y);
    }
}

/// Every adjacent run is one of the runs.
proof fn lemma_adj_sub(w: int, rs: Seq<(int, int)>, x: int, y: int)
    ensures
        forall|k: int|
            0 <= k < adj(w, rs, x, y).len() ==> exists|t: int|
                0 <= t < rs.len() && #[trigger] adj(w, rs, x, y)[k] == rs[t],
    decreases rs.len(),
{
    if rs.len() > 0 {
        lemma_adj_sub(w, rs.drop_first(), x, y);
        assert forall|k: int| 0 <= k < adj(w, rs, x, y).len() implies exists|t: int|
            0 <= t < rs.len() && #[trigger] adj(w, rs, x, y)[k] == rs[t] by {
            if nbhd(w, rs[0], x, y) && k == 0 {
                assert(adj(w, rs, x, y)[0] == rs[0]);
            } else {
                let k2 = if nbhd(w, rs[0], x, y) {
                    k - 1
                } else {
                    k
                };
                assert(adj(w, rs, x, y)[k] == adj(w, rs.drop_first(), x, y)[k2]);
                let t2 = choose|t: int|
                    0 <= t < rs.drop_first().len() && adj(w, rs.drop_first(), x, y)[k2]
                        == rs.drop_first()[t];
                assert(rs.drop_first()[t2] == rs[t2 + 1]);
            }
        }
    }
}

/// What a cell adds to the part-two answer: the product of the two
/// adjacent part numbers when the cell is a `*` with exactly two.
pub open spec fn gear_val(f: Seq<u8>, w: int, rs: Seq<(int, int)>, x: int, y: int) -> int {
    let a = adj(w, rs, x, y);
    if at_spec(f, w, x, y) == 42 && a.len() == 2 {
        run_val(f, a[0]) * run_val(f, a[1])
    } else {
        0
    }
}

/// The part-two contribution of row `y` from column `x` rightwards.
pub open spec fn gear_row(f: Seq<u8>, w: int, rs: Seq<(int, int)>, y: int, x: int) -> int
    decreases w - x,
{
    if x >= w {
        0
    } else {
        gear_val(f, w, rs, x, y) + gear_row(f, w, rs, y, x + 1)
    }
}

/// The part-two contribution of rows `y` through `h`, each row walked
/// from column `-1`.
pub open spec fn gear_rows(f: Seq<u8>, w: int, h: int, rs: Seq<(int, int)>, y: int) -> int
    decreases h + 1 - y,
{
    if y > h {
        0
    } else {
        gear_row(f, w, rs, y, -1) + gear_rows(f, w, h, rs, y + 1)
    }
}

/// The part-two answer of the input.
pub open spec fn part2_val(lv: Seq<Seq<u8>>) -> int {
    gear_rows(flat_of(lv), width_of(lv), lv.len() as int, runs_of(flat_of(lv)), -1)
}

/// A part-two input is well formed: rectangular, inside the accepted
/// dimensions, and every part number and the answer fit in `u64`.
pub open spec fn part2_ok(lv: Seq<Seq<u8>>) -> bool {
    &&& rect(lv)
    &&& lv.len() <= DIM_MAX
    &&& width_of(lv) <= DIM_MAX
    &&& forall|k: int|
        0 <= k < runs_of(flat_of(lv)).len() ==> run_val(
            flat_of(lv),
            #[trigger] runs_of(flat_of(lv))[k],
        ) <= u64::MAX
    &&& part2_val(lv) <= u64::MAX
}

/// Every run of `rs` denotes a nonnegative number.
pub open spec fn runs_nonneg(f: Seq<u8>, rs: Seq<(int, int)>) -> bool {
    forall|k: int| 0 <= k < rs.len() ==> run_val(f, #[trigger] rs[k]) >= 0
}

proof fn lemma_gear_val_nonneg(f: Seq<u8>, w: int, rs: Seq<(int, int)>, x: int, y: int)
    requires
        runs_nonneg(f, rs),
    ensures
        gear_val(f, w, rs, x, y) >= 0,
{
    let a = adj(w, rs, x, y);
    if at_spec(f, w, x, y) == 42 && a.len() == 2 {
        lemma_adj_sub(w, rs, x, y);
        assert(run_val(f, a[0]) >= 0);
        assert(run_val(f, a[1]) >= 0);
        assert(run_val(f, a[0]) * run_val(f, a[1]) >= 0) by (nonlinear_arith)
            requires
                run_val(f, a[0]) >= 0,
                run_val(f, a[1]) >= 0,
        ;
    }
}

proof fn lemma_gear_row_nonneg(f: Seq<u8>, w: int, rs: Seq<(int, int)>, y: int, x: int)
    requires
        runs_nonneg(f, rs),
    ensures
        gear_row(f, w, rs, y, x) >= 0,
    decreases w - x,
{
    if x < w {
        lemma_gear_val_nonneg(f, w, rs, x, y);
        lemma_gear_row_nonneg(f, w, rs, y, x + 1);
    }
}

proof fn lemma_gear_rows_nonneg(f: Seq<u8>, w: int, h: int, rs: Seq<(int, int)>, y: int)
    requires
        runs_nonneg(f, rs),
    ensures
        gear_rows(f, w, h, rs, y) >= 0,
    decreases h + 1 - y,
{
    if y <= h {
        lemma_gear_row_nonneg(f, w, rs, y, -1);
        lemma_gear_rows_nonneg(f, w, h, rs, y + 1);
    }
}

/// Does `(x, y)` lie in the neighbourhood of the run `(s, e)`?
fn nbhd_exec(w: usize, s: usize, e: usize, x: i64, y: i64) -> (b: bool)
    requires
        0 < w <= DIM_MAX,
        s <= 0x1000_0000_0000_0000,
        e <= 0x1000_0000_0000_0000,
        -2 <= x <= 0x1000_0000_0000_0000,
        -2 <= y <= 0x4000_0002,
    ensures
        b == nbhd(w as int, (s as int, e as int), x as int, y as int),
{
    proof {
        vstd::arithmetic::div_mod::lemma_mod_bound(s as int, w as int);
        vstd::arithmetic::div_mod::lemma_mod_bound(e as int, w as int);
        vstd::arithmetic::div_mod::lemma_div_nonincreasing(s as int, w as int);
        vstd::arithmetic::div_mod::lemma_div_pos_is_pos(s as int, w as int);
    }
    let sx = (s % w) as i64;
    let ex = (e % w) as i64;
    let ry = (s / w) as i64;
    (y == ry - 1 && sx - 1 <= x && x <= ex) || (y == ry && (x == sx - 1 || x == ex)) || (y == ry
        + 1 && sx - 1 <= x && x <= ex)
}

/// Sums, over every `*` cell adjacent to exactly two part numbers,
/// the product of those two numbers.
///
/// Returns the sum exactly when the input is rectangular, inside the
/// accepted dimensions, and every part number and the answer fit in
/// `u64`; returns `None` otherwise.
#[verifier::loop_isolation(false)]
pub fn solve_part2(lines: &Vec<Vec<u8>>) -> (r: Option<u64>)
    ensures
        match r {
            Some(v) => part2_ok(views_of(lines@)) && v == part2_val(views_of(lines@)),
            None => !part2_ok(views_of(lines@)),
        },
{
    let ghost lv = views_of(lines@);
    if lines.len() > DIM_MAX {
        return None;
    }
    let f = match flatten(lines) {
        None => {
            return None;
        },
        Some(f) => f,
    };
    let w: usize = if lines.len() == 0 {
        0
    } else {
        lines[0].len()
    };
    proof {
        if lines@.len() > 0 {
            assert(lv[0] == lines@[0]@);
        }
        assert(width_of(lv) == w as int);
    }
    if w > DIM_MAX {
        return None;
    }
    proof {
        lemma_flat_len(lv);
        assert(f@.len() <= 0x1000_0000_0000_0000) by (nonlinear_arith)
            requires
                f@.len() == lv.len() * width_of(lv),
                0 <= lv.len() <= DIM_MAX as int,
                0 <= width_of(lv) <= DIM_MAX as int,
        ;
    }
    let (rs, vs) = match scan_runs(&f) {
        None => {
            return None;
        },
        Some(p) => p,
    };
    let ghost rr = runs_of(f@);
    let h = lines.len();
    proof {
        lemma_runs_digits(f@, 0);
        assert(runs_nonneg(f@, rr)) by {
            assert forall|k: int| 0 <= k < rr.len() implies run_val(f@, #[trigger] rr[k]) >= 0 by {
                lemma_digits_val_nonneg(f@.subrange(rr[k].0, rr[k].1));
            }
        }
    }
    let mut acc: u64 = 0;
    let mut y: i64 = -1;
    while y <= h as i64
        invariant
            -1 <= y <= h + 1,
            part2_val(lv) == acc + gear_rows(f@, w as int, h as int, rr, y as int),
            acc >= 0,
        decreases h + 1 - y,
    {
        let mut x: i64 = -1;
        proof {
            lemma_gear_rows_nonneg(f@, w as int, h as int, rr, y as int + 1);
        }
        while x < w as i64
            invariant
                -1 <= x <= w,
                -1 <= y <= h,
                part2_val(lv) == acc + gear_row(f@, w as int, rr, y as int, x as int) + gear_rows(
                    f@,
                    w as int,
                    h as int,
                    rr,
                    y as int + 1,
                ),
                gear_rows(f@, w as int, h as int, rr, y as int + 1) >= 0,
                acc >= 0,
            decreases w - x,
        {
            let b = at_exec(&f, w, x, y);
            let ghost gv = gear_val(f@, w as int, rr, x as int, y as int);
            if b == 42 {
                // count the runs adjacent to this cell
                let mut count: usize = 0;
                let mut v1: u64 = 0;
                let mut v2: u64 = 0;
                let mut j: usize = 0;
                proof {
                    assert(adj(w as int, rr.take(0), x as int, y as int) =~= Seq::<(
                        int,
                        int,
                    )>::empty());
                }
                while j < rs.len()
                    invariant
                        0 <= j <= rs@.len(),
                        count <= j,
                        count == adj(w as int, rr.take(j as int), x as int, y as int).len(),
                        count >= 1 ==> v1 as int == run_val(
                            f@,
                            adj(w as int, rr.take(j as int), x as int, y as int)[0],
                        ),
                        count >= 2 ==> v2 as int == run_val(
                            f@,
                            adj(w as int, rr.take(j as int), x as int, y as int)[1],
                        ),
                        -1 <= x <= w,
                        -1 <= y <= h,
                    decreases rs@.len() - j,
                {
                    let (s, e) = rs[j];
                    proof {
                        assert(rr[j as int] == (s as int, e as int));
                        assert(0 <= rr[j as int].0 < rr[j as int].1 <= f@.len());
                        lemma_adj_snoc(w as int, rr, j as int, x as int, y as int);
                    }
                    if nbhd_exec(w, s, e, x, y) {
                        if count == 0 {
                            v1 = vs[j];
                            proof {
                                assert(adj(
                                    w as int,
                                    rr.take(j + 1),
                                    x as int,
                                    y as int,
                                )[0] == rr[j as int]);
                            }
                        } else if count == 1 {
                            v2 = vs[j];
                            proof {
                                assert(adj(
                                    w as int,
                                    rr.take(j + 1),
                                    x as int,
                                    y as int,
                                )[1] == rr[j as int]);
                            }
                        }
                        proof {
                            if count >= 1 {
                                assert(adj(w as int, rr.take(j + 1), x as int, y as int)[0] == adj(
                                    w as int,
                                    rr.take(j as int),
                                    x as int,
                                    y as int,
                                )[0]);
                            }
                            if count >= 2 {
                                assert(adj(w as int, rr.take(j + 1), x as int, y as int)[1] == adj(
                                    w as int,
                                    rr.take(j as int),
                                    x as int,
                                    y as int,
                                )[1]);
                            }
                        }
                        count = count + 1;
                    }
                    j = j + 1;
                }
                proof {
                    assert(rr.take(rr.len() as int) =~= rr);
                }
                if count == 2 {
                    let prod = match v1.checked_mul(v2) {
                        Some(p) => p,
                        None => {
                            proof {
                                assert(gv > u64::MAX);
                                lemma_gear_row_nonneg(f@, w as int, rr, y as int, x as int + 1);
                            }
                            return None;
                        },
                    };
                    proof {
                        assert(gv == prod);
                        lemma_gear_row_nonneg(f@, w as int, rr, y as int, x as int + 1);
                    }
                    if acc > u64::MAX - prod {
                        return None;
                    }
                    acc = acc + prod;
                } else {
                    proof {
                        assert(gv == 0);
                    }
                }
            } else {
                proof {
                    assert(gv == 0);
                }
            }
            x = x + 1;
        }
        y = y + 1;
    }
    proof {
        assert(gear_rows(f@, w as int, h as int, rr, h as int + 1) == 0);
    }
    Some(acc)
}

} // verus!
