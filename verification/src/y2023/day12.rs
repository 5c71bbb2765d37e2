//! Spring records: each line holds a row of `#`, `.` and `?` and the
//! sizes of the contiguous damaged groups.  The solver counts the
//! arrangements of groups that fit the row.  Part two quintuples each
//! record, guessing the count from the single and doubled rows and
//! falling back to the full quintupled count when the guess misses.

use vstd::prelude::*;
use crate::text::{
    byte_pred, nums_ok, nums_of, parse_nums, split_sep, split_spec, split_ws, space_pred,
    views_of,
};

verus! {

/// The total span the groups still need: their sizes plus one gap
/// after each.
pub open spec fn gsum(gs: Seq<int>) -> int
    decreases gs.len(),
{
    if gs.len() == 0 {
        0
    } else {
        gsum(gs.drop_first()) + gs[0] + 1
    }
}

/// Does the row still hold a damaged spring?
pub open spec fn has_hash(line: Seq<u8>) -> bool {
    exists|i: int| 0 <= i < line.len() && line[i] == 35
}

/// Can the first group sit at `off`: nothing damaged is skipped, no
/// cell of the group is operational, and the cell after it is free.
pub open spec fn can_place(line: Seq<u8>, g: int, off: int) -> bool {
    &&& g >= 0
    &&& off + g < line.len()
    &&& forall|i: int| 0 <= i < off ==> line[i] != 35
    &&& forall|i: int| off <= i < off + g ==> line[i] != 46
    &&& line[off + g] != 35
}

/// The number of arrangements of `gs` in `line`, which carries one
/// extra trailing free cell.
pub open spec fn fits(line: Seq<u8>, gs: Seq<int>) -> int
    decreases line.len(), 2int, 0int,
{
    let need = gsum(gs);
    if gs.len() == 0 {
        if has_hash(line) {
            0
        } else {
            1
        }
    } else if line.len() < need {
        0
    } else {
        place_sum(line, gs, 0, line.len() - need)
    }
}

/// The arrangements that put the first group at `off` or later, up to
/// `maxoff`.
pub open spec fn place_sum(line: Seq<u8>, gs: Seq<int>, off: int, maxoff: int) -> int
    decreases line.len(), 1int, maxoff - off + 1,
{
    if off > maxoff || off < 0 || gs.len() == 0 || gs[0] < 0 {
        0
    } else {
        let here = if can_place(line, gs[0], off) {
            fits(line.skip(off + gs[0] + 1), gs.drop_first())
        } else {
            0
        };
        here + place_sum(line, gs, off + 1, maxoff)
    }
}

proof fn lemma_fits_nonneg(line: Seq<u8>, gs: Seq<int>)
    ensures
        fits(line, gs) >= 0,
    decreases line.len(), 2int, 0int,
{
    if gs.len() != 0 && line.len() >= gsum(gs) {
        lemma_place_sum_nonneg(line, gs, 0, line.len() - gsum(gs));
    }
}

proof fn lemma_place_sum_nonneg(line: Seq<u8>, gs: Seq<int>, off: int, maxoff: int)
    ensures
        place_sum(line, gs, off, maxoff) >= 0,
    decreases line.len(), 1int, maxoff - off + 1,
{
    if !(off > maxoff || off < 0 || gs.len() == 0 || gs[0] < 0) {
        if can_place(line, gs[0], off) {
            lemma_fits_nonneg(line.skip(off + gs[0] + 1), gs.drop_first());
        }
        lemma_place_sum_nonneg(line, gs, off + 1, maxoff);
    }
}

/// The group sizes a machine list denotes.
pub open spec fn gs_model(v: Seq<u64>, gi: int) -> Seq<int> {
    Seq::new(if v.len() >= gi { (v.len() - gi) as nat } else { 0 }, |k: int| v[gi + k] as int)
}

/// Counts the arrangements of the groups `gs[gi..]` in `line[li..]`.
///
/// Returns the count unless it exceeds `u64::MAX`.
#[verifier::loop_isolation(false)]
fn count_fits_inner(line: &Vec<u8>, li: usize, gs: &Vec<u64>, gi: usize) -> (r: Option<u64>)
    requires
        li <= line@.len(),
        gi <= gs@.len(),
    ensures
        match r {
            Some(v) => v == fits(line@.skip(li as int), gs_model(gs@, gi as int)),
            None => fits(line@.skip(li as int), gs_model(gs@, gi as int)) > u64::MAX,
        },
    decreases line@.len() - li,
{
    let ghost lv = line@.skip(li as int);
    let ghost gv = gs_model(gs@, gi as int);
    let n = line.len() - li;
    // the span the groups need, as a saturating sum
    let mut need: u64 = 0;
    let mut t: usize = gs.len();
    let mut huge: bool = false;
    proof {
        assert(gs_model(gs@, gs@.len() as int) =~= Seq::<int>::empty());
    }
    while t > gi
        invariant
            gi <= t <= gs@.len(),
            !huge ==> need == gsum(gs_model(gs@, t as int)),
            huge ==> gsum(gs_model(gs@, t as int)) > u64::MAX,
            huge ==> need == u64::MAX,
        decreases t,
    {
        t = t - 1;
        proof {
            assert(gs_model(gs@, t as int).drop_first() =~= gs_model(gs@, t as int + 1));
            assert(gs_model(gs@, t as int)[0] == gs@[t as int] as int);
            lemma_gsum_nonneg(gs_model(gs@, t as int + 1));
        }
        let g = gs[t];
        if huge || need > u64::MAX - 1 || need + 1 > u64::MAX - g {
            huge = true;
            need = u64::MAX;
        } else {
            need = need + g + 1;
        }
    }
    if gs.len() - gi == 0 {
        proof {
            assert(gv =~= Seq::<int>::empty());
        }
        // no groups left: one arrangement, unless a `#` remains
        let mut i: usize = li;
        while i < line.len()
            invariant
                li <= i <= line@.len(),
                forall|j: int| li <= j < i ==> line@[j] != 35,
            decreases line@.len() - i,
        {
            if line[i] == 35 {
                proof {
                    assert(lv[i - li] == 35);
                }
                return Some(0);
            }
            i = i + 1;
        }
        proof {
            assert(!has_hash(lv)) by {
                assert(forall|j: int| 0 <= j < lv.len() ==> lv[j] == line@[li + j]);
            }
        }
        return Some(1);
    }
    // not enough space left?
    if huge || (n as u64) < need {
        proof {
            assert(lv.len() < gsum(gv));
        }
        return Some(0);
    }
    let maxoff = n - need as usize;
    let ghost mo = maxoff as int;
    let mut acc: u64 = 0;
    let mut off: usize = 0;
    proof {
        lemma_place_sum_nonneg(lv, gv, 0, mo);
    }
    while off <= maxoff
        invariant
            0 <= off <= maxoff + 1,
            place_sum(lv, gv, 0, mo) == acc + place_sum(lv, gv, off as int, mo),
            acc <= u64::MAX,
        decreases maxoff + 1 - off,
    {
        let g = gs[gi];
        proof {
            assert(gv[0] == g as int);
        }
        // nothing damaged may be skipped before the group
        let mut skip_ok: bool = true;
        let mut i: usize = 0;
        while i < off
            invariant
                0 <= i <= off,
                off <= maxoff,
                skip_ok == forall|j: int| 0 <= j < i ==> lv[j] != 35,
            decreases off - i,
        {
            proof {
                assert(lv[i as int] == line@[li + i]);
            }
            if line[li + i] == 35 {
                skip_ok = false;
            }
            i = i + 1;
        }
        // the group itself must not cross an operational cell
        proof {
            lemma_gsum_first(gv);
            assert(off + g < lv.len());
        }
        let mut gap_ok: bool = true;
        let mut i2: usize = 0;
        while i2 < g as usize
            invariant
                0 <= i2 <= g,
                off <= maxoff,
                off + g < lv.len(),
                gap_ok == forall|j: int| off <= j < off + i2 ==> lv[j] != 46,
            decreases g - i2,
        {
            proof {
                assert(lv[off + i2] == line@[li + off + i2]);
            }
            if line[li + off + i2] == 46 {
                gap_ok = false;
            }
            i2 = i2 + 1;
        }
        let end_ok = line[li + off + g as usize] != 35;
        proof {
            assert(lv[off + g] == line@[li + off + g]);
        }
        let here: u64 = if skip_ok && gap_ok && end_ok {
            proof {
                assert(can_place(lv, g as int, off as int));
                assert(line@.skip(li + off + g + 1) =~= lv.skip(off + g + 1));
                assert(gs_model(gs@, gi + 1) =~= gv.drop_first());
            }
            match count_fits_inner(line, li + off + (g as usize) + 1, gs, gi + 1) {
                Some(v) => v,
                None => {
                    proof {
                        lemma_place_sum_nonneg(lv, gv, off as int + 1, mo);
                        assert(fits(lv, gv) == place_sum(lv, gv, 0, mo));
                    }
                    return None;
                },
            }
        } else {
            proof {
                assert(!can_place(lv, g as int, off as int));
            }
            0
        };
        proof {
            assert(place_sum(lv, gv, off as int, mo) == here + place_sum(
                lv,
                gv,
                off as int + 1,
                mo,
            ));
        }
        if acc > u64::MAX - here {
            proof {
                lemma_place_sum_nonneg(lv, gv, off as int + 1, mo);
                assert(fits(lv, gv) == place_sum(lv, gv, 0, mo));
            }
            return None;
        }
        acc = acc + here;
        off = off + 1;
    }
    proof {
        assert(place_sum(lv, gv, mo + 1, mo) == 0);
        assert(fits(lv, gv) == place_sum(lv, gv, 0, mo));
    }
    Some(acc)
}

proof fn lemma_gsum_nonneg(gs: Seq<int>)
    requires
        forall|k: int| 0 <= k < gs.len() ==> gs[k] >= 0,
    ensures
        gsum(gs) >= 0,
    decreases gs.len(),
{
    if gs.len() > 0 {
        assert(forall|k: int| 0 <= k < gs.len() - 1 ==> gs.drop_first()[k] == gs[k + 1]);
        lemma_gsum_nonneg(gs.drop_first());
    }
}

/// The arrangements of `gs` in `row`: a trailing free cell makes
/// every group need one gap after it.
pub open spec fn count_spec(row: Seq<u8>, gs: Seq<int>) -> int {
    fits(row.push(46), gs)
}

/// Counts the arrangements of the groups in the row.
///
/// Returns the count unless it exceeds `u64::MAX`.
pub fn count_fits(row: &Vec<u8>, gs: &Vec<u64>) -> (r: Option<u64>)
    ensures
        match r {
            Some(v) => v == count_spec(row@, gs_model(gs@, 0)),
            None => count_spec(row@, gs_model(gs@, 0)) > u64::MAX,
        },
{
    let n = row.len();
    let mut line = crate::text::subvec(row, 0, n);
    line.push(46);
    proof {
        assert(line@ =~= row@.push(46));
        assert(line@.skip(0) =~= line@);
    }
    count_fits_inner(&line, 0, gs, 0)
}

/// The row of record `l`: its first token.
pub open spec fn row_of(l: Seq<u8>) -> Seq<u8> {
    split_spec(l, space_pred())[0]
}

/// The group sizes of record `l`: its second token split on commas.
pub open spec fn groups_of(l: Seq<u8>) -> Seq<int> {
    nums_of(split_spec(split_spec(l, space_pred())[1], byte_pred(44)))
}

/// A record line is well formed: at least two tokens, the second a
/// comma-separated list of numbers fitting `u64`.
pub open spec fn line_ok(l: Seq<u8>) -> bool {
    &&& split_spec(l, space_pred()).len() >= 2
    &&& nums_ok(split_spec(split_spec(l, space_pred())[1], byte_pred(44)))
}

/// Reads one record line into its row and group sizes.
fn parse_record(l: &Vec<u8>) -> (r: Option<(Vec<u8>, Vec<u64>)>)
    ensures
        match r {
            Some((row, gs)) => line_ok(l@) && row@ == row_of(l@) && gs_model(gs@, 0) == groups_of(
                l@,
            ),
            None => !line_ok(l@),
        },
{
    let toks = split_ws(l);
    if toks.len() < 2 {
        return None;
    }
    proof {
        assert(views_of(toks@)[0] == toks@[0]@);
        assert(views_of(toks@)[1] == toks@[1]@);
    }
    let gtoks = split_sep(&toks[1], 44);
    let gs = match parse_nums(&gtoks) {
        None => {
            return None;
        },
        Some(g) => g,
    };
    let n0 = toks[0].len();
    let row = crate::text::subvec(&toks[0], 0, n0);
    proof {
        assert(row@ =~= row_of(l@));
        assert(gs_model(gs@, 0) =~= groups_of(l@)) by {
            assert(forall|k: int|
                0 <= k < gs@.len() ==> gs_model(gs@, 0)[k] == gs@[k] as int);
            assert(forall|k: int|
                0 <= k < gtoks@.len() ==> views_of(gtoks@)[k] == gtoks@[k]@);
        }
    }
    Some((row, gs))
}

/// The part-one count of a record line.
pub open spec fn line_val1(l: Seq<u8>) -> int {
    count_spec(row_of(l), groups_of(l))
}

/// The part-one answer over the first `i` lines.
pub open spec fn psum1(lv: Seq<Seq<u8>>, i: int) -> int
    decreases i,
{
    if i <= 0 {
        0
    } else {
        psum1(lv, i - 1) + line_val1(lv[i - 1])
    }
}

/// A part-one input is well formed: every record line parses and no
/// partial sum exceeds `u64`.
pub open spec fn part1_ok(lv: Seq<Seq<u8>>) -> bool {
    &&& forall|k: int| 0 <= k < lv.len() ==> line_ok(#[trigger] lv[k])
    &&& forall|k: int| 0 <= k < lv.len() ==> #[trigger] line_val1(lv[k]) <= u64::MAX
    &&& forall|i: int| 0 <= i <= lv.len() ==> #[trigger] psum1(lv, i) <= u64::MAX
}

/// Sums the arrangement counts of all record lines.
///
/// Returns the sum exactly when every line parses and every count and
/// partial sum fits in `u64`; returns `None` otherwise.
#[verifier::loop_isolation(false)]
pub fn solve_part1(lines: &Vec<Vec<u8>>) -> (r: Option<u64>)
    ensures
        match r {
            Some(v) => part1_ok(views_of(lines@)) && v == psum1(
                views_of(lines@),
                lines@.len() as int,
            ),
            None => !part1_ok(views_of(lines@)),
        },
{
    let ghost lv = views_of(lines@);
    let mut acc: u64 = 0;
    let mut i: usize = 0;
    while i < lines.len()
        invariant
            0 <= i <= lines@.len(),
            acc == psum1(lv, i as int),
            forall|k: int| 0 <= k < i ==> line_ok(#[trigger] lv[k]),
            forall|k: int| 0 <= k < i ==> #[trigger] line_val1(lv[k]) <= u64::MAX,
            forall|t: int| 0 <= t <= i ==> #[trigger] psum1(lv, t) <= u64::MAX,
        decreases lines@.len() - i,
    {
        proof {
            assert(lv[i as int] == lines@[i as int]@);
        }
        let (row, gs) = match parse_record(&lines[i]) {
            None => {
                return None;
            },
            Some(p) => p,
        };
        let c = match count_fits(&row, &gs) {
            None => {
                proof {
                    assert(line_val1(lv[i as int]) > u64::MAX);
                }
                return None;
            },
            Some(c) => c,
        };
        if acc > u64::MAX - c {
            proof {
                assert(psum1(lv, i + 1) > u64::MAX);
            }
            return None;
        }
        acc = acc + c;
        i = i + 1;
    }
    Some(acc)
}

/// The row repeated `k` times with `?` between the copies.
pub open spec fn rep_row(row: Seq<u8>, k: int) -> Seq<u8>
    decreases k,
{
    if k <= 1 {
        row
    } else {
        rep_row(row, k - 1) + seq![63u8] + row
    }
}

/// The group list repeated `k` times.
pub open spec fn rep_gs(gs: Seq<int>, k: int) -> Seq<int>
    decreases k,
{
    if k <= 1 {
        gs
    } else {
        rep_gs(gs, k - 1) + gs
    }
}

/// The arrangement count of the record repeated `k` times.
pub open spec fn rep_count(l: Seq<u8>, k: int) -> int {
    count_spec(rep_row(row_of(l), k), rep_gs(groups_of(l), k))
}

/// The part-two count of a record line: the count of the doubled
/// record times the single-to-double growth factor, cubed — checked
/// against the tripled record — with the full quintupled count as the
/// fallback.
pub open spec fn line_val2(l: Seq<u8>) -> int {
    let c1 = rep_count(l, 1);
    let c2 = rep_count(l, 2);
    let c3 = rep_count(l, 3);
    let f = c2 / c1;
    if c3 == c2 * f {
        ((c2 * f) * f) * f
    } else {
        rep_count(l, 5)
    }
}

/// A part-two record line is well formed: it parses, its count is
/// positive, and every intermediate of the guessing scheme fits `u64`.
pub open spec fn line2_ok(l: Seq<u8>) -> bool {
    let c1 = rep_count(l, 1);
    let c2 = rep_count(l, 2);
    let c3 = rep_count(l, 3);
    let f = c2 / c1;
    &&& line_ok(l)
    &&& c1 >= 1
    &&& c1 <= u64::MAX
    &&& c2 <= u64::MAX
    &&& c3 <= u64::MAX
    &&& c2 * f <= u64::MAX
    &&& (c3 == c2 * f ==> (c2 * f) * f <= u64::MAX && ((c2 * f) * f) * f <= u64::MAX)
    &&& (c3 != c2 * f ==> rep_count(l, 5) <= u64::MAX)
}

/// The part-two answer over the first `i` lines.
pub open spec fn psum2(lv: Seq<Seq<u8>>, i: int) -> int
    decreases i,
{
    if i <= 0 {
        0
    } else {
        psum2(lv, i - 1) + line_val2(lv[i - 1])
    }
}

/// A part-two input is well formed: every record line is, and no
/// partial sum exceeds `u64`.
pub open spec fn part2_ok(lv: Seq<Seq<u8>>) -> bool {
    &&& forall|k: int| 0 <= k < lv.len() ==> line2_ok(#[trigger] lv[k])
    &&& forall|i: int| 0 <= i <= lv.len() ==> #[trigger] psum2(lv, i) <= u64::MAX
}

/// Builds the row repeated `k` times with `?` between copies.
#[verifier::loop_isolation(false)]
fn build_rep_row(row: &Vec<u8>, k: usize) -> (r: Vec<u8>)
    requires
        1 <= k <= 5,
    ensures
        r@ == rep_row(row@, k as int),
{
    let n = row.len();
    let mut r = crate::text::subvec(row, 0, n);
    let mut t: usize = 1;
    while t < k
        invariant
            1 <= t <= k,
            r@ == rep_row(row@, t as int),
        decreases k - t,
    {
        r.push(63);
        let mut j: usize = 0;
        while j < n
            invariant
                0 <= j <= n,
                n == row@.len(),
                1 <= t < k,
                r@ == rep_row(row@, t as int) + seq![63u8] + row@.take(j as int),
            decreases n - j,
        {
            r.push(row[j]);
            proof {
                assert(r@ =~= rep_row(row@, t as int) + seq![63u8] + row@.take(j + 1));
            }
            j = j + 1;
        }
        proof {
            assert(row@.take(n as int) =~= row@);
            assert(r@ =~= rep_row(row@, t as int + 1));
        }
        t = t + 1;
    }
    proof {
        assert(rep_row(row@, 1) == row@);
        assert(r@ =~= rep_row(row@, k as int));
    }
    r
}

/// Builds the group list repeated `k` times.
#[verifier::loop_isolation(false)]
fn build_rep_gs(gs: &Vec<u64>, k: usize) -> (r: Vec<u64>)
    requires
        1 <= k <= 5,
    ensures
        gs_model(r@, 0) == rep_gs(gs_model(gs@, 0), k as int),
{
    let n = gs.len();
    let mut r: Vec<u64> = Vec::new();
    let mut j0: usize = 0;
    while j0 < n
        invariant
            0 <= j0 <= n,
            r@ == gs@.take(j0 as int),
        decreases n - j0,
    {
        r.push(gs[j0]);
        proof {
            assert(r@ =~= gs@.take(j0 + 1));
        }
        j0 = j0 + 1;
    }
    proof {
        assert(gs@.take(n as int) =~= gs@);
    }
    let mut t: usize = 1;
    while t < k
        invariant
            1 <= t <= k,
            gs_model(r@, 0) == rep_gs(gs_model(gs@, 0), t as int),
        decreases k - t,
    {
        let ghost pre = r@;
        let mut j: usize = 0;
        while j < n
            invariant
                0 <= j <= n,
                n == gs@.len(),
                r@ == pre + gs@.take(j as int),
            decreases n - j,
        {
            r.push(gs[j]);
            proof {
                assert(r@ =~= pre + gs@.take(j + 1));
            }
            j = j + 1;
        }
        proof {
            assert(gs@.take(n as int) =~= gs@);
            assert(gs_model(r@, 0) =~= rep_gs(gs_model(gs@, 0), t as int + 1)) by {
                assert(forall|x: int|
                    0 <= x < r@.len() ==> gs_model(r@, 0)[x] == r@[x] as int);
                assert(forall|x: int|
                    0 <= x < pre.len() ==> gs_model(pre, 0)[x] == pre[x] as int);
                assert(forall|x: int|
                    0 <= x < gs@.len() ==> gs_model(gs@, 0)[x] == gs@[x] as int);
            }
        }
        t = t + 1;
    }
    proof {
        assert(rep_gs(gs_model(gs@, 0), 1) == gs_model(gs@, 0));
    }
    r
}

/// Sums the part-two counts of all record lines: each record is
/// quintupled, the count guessed from the single and doubled rows and
/// checked against the tripled row, with the full count as fallback.
///
/// Returns the sum exactly when every line is well formed and every
/// intermediate and partial sum fits in `u64`; returns `None`
/// otherwise.
#[verifier::loop_isolation(false)]
pub fn solve_part2(lines: &Vec<Vec<u8>>) -> (r: Option<u64>)
    ensures
        match r {
            Some(v) => part2_ok(views_of(lines@)) && v == psum2(
                views_of(lines@),
                lines@.len() as int,
            ),
            None => !part2_ok(views_of(lines@)),
        },
{
    let ghost lv = views_of(lines@);
    let mut acc: u64 = 0;
    let mut i: usize = 0;
    while i < lines.len()
        invariant
            0 <= i <= lines@.len(),
            acc == psum2(lv, i as int),
            forall|k: int| 0 <= k < i ==> line2_ok(#[trigger] lv[k]),
            forall|t: int| 0 <= t <= i ==> #[trigger] psum2(lv, t) <= u64::MAX,
        decreases lines@.len() - i,
    {
        proof {
            assert(lv[i as int] == lines@[i as int]@);
        }
        let (row, gs) = match parse_record(&lines[i]) {
            None => {
                return None;
            },
            Some(p) => p,
        };
        proof {
            assert(rep_row(row@, 1) == row@);
            assert(rep_gs(gs_model(gs@, 0), 1) == gs_model(gs@, 0));
        }
        let c1 = match count_fits(&row, &gs) {
            None => {
                return None;
            },
            Some(c) => c,
        };
        if c1 == 0 {
            return None;
        }
        let row2 = build_rep_row(&row, 2);
        let gs2 = build_rep_gs(&gs, 2);
        let c2 = match count_fits(&row2, &gs2) {
            None => {
                return None;
            },
            Some(c) => c,
        };
        let row3 = build_rep_row(&row, 3);
        let gs3 = build_rep_gs(&gs, 3);
        let c3 = match count_fits(&row3, &gs3) {
            None => {
                return None;
            },
            Some(c) => c,
        };
        let f = c2 / c1;
        let t1 = match c2.checked_mul(f) {
            None => {
                return None;
            },
            Some(t) => t,
        };
        let v: u64 = if c3 == t1 {
            let t2 = match t1.checked_mul(f) {
                None => {
                    return None;
                },
                Some(t) => t,
            };
            match t2.checked_mul(f) {
                None => {
                    return None;
                },
                Some(t) => t,
            }
        } else {
            let row5 = build_rep_row(&row, 5);
            let gs5 = build_rep_gs(&gs, 5);
            match count_fits(&row5, &gs5) {
                None => {
                    return None;
                },
                Some(c) => c,
            }
        };
        proof {
            assert(v == line_val2(lv[i as int]));
            assert(line2_ok(lv[i as int]));
        }
        if acc > u64::MAX - v {
            proof {
                assert(psum2(lv, i + 1) > u64::MAX);
            }
            return None;
        }
        acc = acc + v;
        i = i + 1;
    }
    Some(acc)
}

/// The first group fits inside what the whole span needs.
proof fn lemma_gsum_first(gs: Seq<int>)
    requires
        gs.len() > 0,
        forall|k: int| 0 <= k < gs.len() ==> gs[k] >= 0,
    ensures
        gs[0] + 1 <= gsum(gs),
{
    assert(forall|k: int| 0 <= k < gs.len() - 1 ==> gs.drop_first()[k] == gs[k + 1]);
    lemma_gsum_nonneg(gs.drop_first());
}

} // verus!
