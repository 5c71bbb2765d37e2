//! Point of incidence: the input holds ash-and-rock patterns separated
//! by blank lines.  Each pattern has a mirror line between two columns
//! or two rows; a pattern scores the columns left of its first vertical
//! mirror plus a hundred times the rows above its first horizontal one.
//! Part two flips every cell in turn and scores the mirror lines that
//! only a flip can produce.

use vstd::prelude::*;
use crate::text::views_of;

verus! {

/// The width of a pattern: its first row's length.
pub open spec fn pat_width(p: Seq<Seq<u8>>) -> int {
    if p.len() == 0 {
        0
    } else {
        p[0].len() as int
    }
}

/// Every row of the pattern has the first row's length.
pub open spec fn pat_rect(p: Seq<Seq<u8>>) -> bool {
    forall|li: int| 0 <= li < p.len() ==> (#[trigger] p[li]).len() == pat_width(p)
}

/// Every cell of the pattern is ash `.` or rock `#`.
pub open spec fn pat_cells_ok(p: Seq<Seq<u8>>) -> bool {
    forall|li: int, co: int|
        0 <= li < p.len() && 0 <= co < p[li].len() ==> #[trigger] p[li][co] == 35 || p[li][co]
            == 46
}

/// A vertical mirror between columns `c - 1` and `c`: on every row
/// the columns reflect around it as far as the row reaches.
pub open spec fn mirror_col(p: Seq<Seq<u8>>, c: int) -> bool {
    &&& 1 <= c < pat_width(p)
    &&& forall|li: int, k: int|
        0 <= li < p.len() && 0 <= k && c - 1 - k >= 0 && c + k < p[li].len()
            ==> #[trigger] p[li][c - 1 - k] == p[li][c + k]
}

/// A horizontal mirror between rows `r - 1` and `r`.
pub open spec fn mirror_row(p: Seq<Seq<u8>>, r: int) -> bool {
    &&& 1 <= r < p.len()
    &&& forall|k: int|
        0 <= k && r - 1 - k >= 0 && r + k < p.len() ==> #[trigger] p[r - 1 - k] == p[r + k]
}

/// The first vertical mirror at or after column `c`, or zero.
pub open spec fn first_vcol(p: Seq<Seq<u8>>, c: int) -> int
    decreases pat_width(p) - c,
{
    if c < 1 || c >= pat_width(p) {
        0
    } else if mirror_col(p, c) {
        c
    } else {
        first_vcol(p, c + 1)
    }
}

/// The first horizontal mirror at or after row `r`, or zero.
pub open spec fn first_hrow(p: Seq<Seq<u8>>, r: int) -> int
    decreases p.len() - r,
{
    if r < 1 || r >= p.len() {
        0
    } else if mirror_row(p, r) {
        r
    } else {
        first_hrow(p, r + 1)
    }
}

/// A pattern's part-one score.
pub open spec fn score1(p: Seq<Seq<u8>>) -> int {
    first_vcol(p, 1) + 100 * first_hrow(p, 1)
}

/// The cell at `(li, co)` flipped between ash and rock.
pub open spec fn smudged(p: Seq<Seq<u8>>, li: int, co: int) -> Seq<Seq<u8>> {
    p.update(li, p[li].update(co, if p[li][co] == 35 {
        46u8
    } else {
        35u8
    }))
}

/// Column `c` mirrors only once some single cell is flipped.
pub open spec fn is_new_v(p: Seq<Seq<u8>>, c: int) -> bool {
    &&& !mirror_col(p, c)
    &&& exists|li: int, co: int|
        0 <= li < p.len() && 0 <= co < pat_width(p) && mirror_col(#[trigger] smudged(p, li, co), c)
}

/// Row `r` mirrors only once some single cell is flipped.
pub open spec fn is_new_h(p: Seq<Seq<u8>>, r: int) -> bool {
    &&& !mirror_row(p, r)
    &&& exists|li: int, co: int|
        0 <= li < p.len() && 0 <= co < pat_width(p) && mirror_row(#[trigger] smudged(p, li, co), r)
}

/// The sum of the columns that mirror only after a flip, from `c` on.
pub open spec fn vsum2(p: Seq<Seq<u8>>, c: int) -> int
    decreases pat_width(p) - c,
{
    if c < 1 || c >= pat_width(p) {
        0
    } else {
        (if is_new_v(p, c) {
            c
        } else {
            0int
        }) + vsum2(p, c + 1)
    }
}

/// The sum of the rows that mirror only after a flip, from `r` on.
pub open spec fn hsum2(p: Seq<Seq<u8>>, r: int) -> int
    decreases p.len() - r,
{
    if r < 1 || r >= p.len() {
        0
    } else {
        (if is_new_h(p, r) {
            r
        } else {
            0int
        }) + hsum2(p, r + 1)
    }
}

/// A pattern's part-two score.
pub open spec fn score2(p: Seq<Seq<u8>>) -> int {
    vsum2(p, 1) + 100 * hsum2(p, 1)
}

/// The first blank line at or after `j`, or the end.
pub open spec fn pat_end(lv: Seq<Seq<u8>>, j: int) -> int
    decreases lv.len() - j,
{
    if j >= lv.len() || lv[j].len() == 0 {
        j
    } else {
        pat_end(lv, j + 1)
    }
}

pub proof fn lemma_pat_end_ge(lv: Seq<Seq<u8>>, j: int)
    requires
        0 <= j,
    ensures
        pat_end(lv, j) >= j,
        j <= lv.len() ==> pat_end(lv, j) <= lv.len(),
    decreases lv.len() - j,
{
    if !(j >= lv.len() || lv[j].len() == 0) {
        lemma_pat_end_ge(lv, j + 1);
    }
}

/// The part-one scores of the patterns starting at `j`, summed.
pub open spec fn psum1(lv: Seq<Seq<u8>>, j: int) -> int
    decreases lv.len() - j,
    via psum1_decreases
{
    if j < 0 || j >= lv.len() {
        0
    } else {
        let e = pat_end(lv, j);
        score1(lv.subrange(j, e)) + psum1(lv, if e < lv.len() {
            e + 1
        } else {
            e
        })
    }
}

#[via_fn]
proof fn psum1_decreases(lv: Seq<Seq<u8>>, j: int) {
    if 0 <= j < lv.len() {
        lemma_pat_end_ge(lv, j);
    }
}

/// The part-two scores of the patterns starting at `j`, summed.
pub open spec fn psum2(lv: Seq<Seq<u8>>, j: int) -> int
    decreases lv.len() - j,
    via psum2_decreases
{
    if j < 0 || j >= lv.len() {
        0
    } else {
        let e = pat_end(lv, j);
        score2(lv.subrange(j, e)) + psum2(lv, if e < lv.len() {
            e + 1
        } else {
            e
        })
    }
}

#[via_fn]
proof fn psum2_decreases(lv: Seq<Seq<u8>>, j: int) {
    if 0 <= j < lv.len() {
        lemma_pat_end_ge(lv, j);
    }
}

/// Every pattern from `j` on is rectangular and inside the accepted
/// dimensions.
pub open spec fn notes_ok1(lv: Seq<Seq<u8>>, j: int) -> bool
    decreases lv.len() - j,
    via notes_ok1_decreases
{
    if j < 0 || j >= lv.len() {
        true
    } else {
        let e = pat_end(lv, j);
        let p = lv.subrange(j, e);
        pat_rect(p) && pat_width(p) <= 0x1000_0000 && e - j <= 0x1000_0000 && notes_ok1(
            lv,
            if e < lv.len() {
                e + 1
            } else {
                e
            },
        )
    }
}

#[via_fn]
proof fn notes_ok1_decreases(lv: Seq<Seq<u8>>, j: int) {
    if 0 <= j < lv.len() {
        lemma_pat_end_ge(lv, j);
    }
}

/// Every pattern from `j` on is rectangular, made of ash and rock,
/// and inside the accepted dimensions.
pub open spec fn notes_ok2(lv: Seq<Seq<u8>>, j: int) -> bool
    decreases lv.len() - j,
    via notes_ok2_decreases
{
    if j < 0 || j >= lv.len() {
        true
    } else {
        let e = pat_end(lv, j);
        let p = lv.subrange(j, e);
        pat_rect(p) && pat_width(p) <= 0x1000_0000 && e - j <= 0x1000_0000 && pat_cells_ok(p)
            && notes_ok2(
            lv,
            if e < lv.len() {
                e + 1
            } else {
                e
            },
        )
    }
}

#[via_fn]
proof fn notes_ok2_decreases(lv: Seq<Seq<u8>>, j: int) {
    if 0 <= j < lv.len() {
        lemma_pat_end_ge(lv, j);
    }
}

proof fn lemma_first_vcol_bounds(p: Seq<Seq<u8>>, c: int)
    ensures
        0 <= first_vcol(p, c) < (if pat_width(p) >= 1 {
            pat_width(p)
        } else {
            1int
        }),
    decreases pat_width(p) - c,
{
    if !(c < 1 || c >= pat_width(p)) && !mirror_col(p, c) {
        lemma_first_vcol_bounds(p, c + 1);
    }
}

proof fn lemma_first_hrow_bounds(p: Seq<Seq<u8>>, r: int)
    ensures
        0 <= first_hrow(p, r) < (if p.len() >= 1 {
            p.len() as int
        } else {
            1int
        }),
    decreases p.len() - r,
{
    if !(r < 1 || r >= p.len()) && !mirror_row(p, r) {
        lemma_first_hrow_bounds(p, r + 1);
    }
}

proof fn lemma_vsum2_bounds(p: Seq<Seq<u8>>, c: int)
    ensures
        0 <= vsum2(p, c),
        vsum2(p, c) <= (if pat_width(p) - c >= 0 {
            (pat_width(p) - c) * pat_width(p)
        } else {
            0int
        }),
    decreases pat_width(p) - c,
{
    if !(c < 1 || c >= pat_width(p)) {
        lemma_vsum2_bounds(p, c + 1);
        let w = pat_width(p);
        assert((w - c) * w == (w - c - 1) * w + w) by (nonlinear_arith);
    }
}

proof fn lemma_hsum2_bounds(p: Seq<Seq<u8>>, r: int)
    ensures
        0 <= hsum2(p, r),
        hsum2(p, r) <= (if p.len() - r >= 0 {
            (p.len() - r) * p.len()
        } else {
            0int
        }),
    decreases p.len() - r,
{
    if !(r < 1 || r >= p.len()) {
        lemma_hsum2_bounds(p, r + 1);
        let h = p.len() as int;
        assert((h - r) * h == (h - r - 1) * h + h) by (nonlinear_arith);
    }
}

proof fn lemma_psum1_nonneg(lv: Seq<Seq<u8>>, j: int)
    ensures
        psum1(lv, j) >= 0,
    decreases lv.len() - j,
{
    if 0 <= j < lv.len() {
        let e = pat_end(lv, j);
        lemma_pat_end_ge(lv, j);
        lemma_first_vcol_bounds(lv.subrange(j, e), 1);
        lemma_first_hrow_bounds(lv.subrange(j, e), 1);
        lemma_psum1_nonneg(lv, if e < lv.len() {
            e + 1
        } else {
            e
        });
    }
}

proof fn lemma_psum2_nonneg(lv: Seq<Seq<u8>>, j: int)
    ensures
        psum2(lv, j) >= 0,
    decreases lv.len() - j,
{
    if 0 <= j < lv.len() {
        let e = pat_end(lv, j);
        lemma_pat_end_ge(lv, j);
        lemma_vsum2_bounds(lv.subrange(j, e), 1);
        lemma_hsum2_bounds(lv.subrange(j, e), 1);
        lemma_psum2_nonneg(lv, if e < lv.len() {
            e + 1
        } else {
            e
        });
    }
}

/// Do two rows hold the same bytes?
fn rows_eq(a: &Vec<u8>, b: &Vec<u8>) -> (r: bool)
    ensures
        r == (a@ == b@),
{
    if a.len() != b.len() {
        proof {
            assert(a@ != b@);
        }
        return false;
    }
    let mut i: usize = 0;
    while i < a.len()
        invariant
            0 <= i <= a@.len(),
            a@.len() == b@.len(),
            forall|t: int| 0 <= t < i ==> a@[t] == b@[t],
        decreases a@.len() - i,
    {
        if a[i] != b[i] {
            return false;
        }
        i = i + 1;
    }
    proof {
        assert(a@ =~= b@);
    }
    true
}

/// Is there a vertical mirror between columns `c - 1` and `c`?
#[verifier::loop_isolation(false)]
fn is_mirror_col(p: &Vec<Vec<u8>>, c: usize) -> (r: bool)
    requires
        pat_rect(views_of(p@)),
        1 <= c < pat_width(views_of(p@)),
        pat_width(views_of(p@)) <= 0x1000_0000,
    ensures
        r == mirror_col(views_of(p@), c as int),
{
    let ghost pv = views_of(p@);
    let w = p[0].len();
    proof {
        assert(pv[0] == p@[0]@);
        assert(w as int == pat_width(pv));
    }
    let mut li: usize = 0;
    while li < p.len()
        invariant
            0 <= li <= p@.len(),
            forall|l2: int, k: int|
                0 <= l2 < li && 0 <= k && c - 1 - k >= 0 && c + k < pv[l2].len()
                    ==> #[trigger] pv[l2][c - 1 - k] == pv[l2][c + k],
        decreases p@.len() - li,
    {
        proof {
            assert(pv[li as int] == p@[li as int]@);
            assert(pv[li as int].len() == w);
        }
        let row = &p[li];
        let mut k: usize = 0;
        while k < c && c + k < w
            invariant
                0 <= k,
                li < p@.len(),
                row@ == pv[li as int],
                row@.len() == w,
                forall|k2: int|
                    0 <= k2 < k && c - 1 - k2 >= 0 && c + k2 < w ==> #[trigger] row@[c - 1 - k2]
                        == row@[c + k2],
            decreases w - k,
        {
            if row[c - 1 - k] != row[c + k] {
                proof {
                    assert(!mirror_col(pv, c as int));
                }
                return false;
            }
            k = k + 1;
        }
        proof {
            assert forall|k2: int|
                0 <= k2 && c - 1 - k2 >= 0 && c + k2 < pv[li as int].len() implies #[trigger] pv[
                li as int
            ][c - 1 - k2] == pv[li as int][c + k2] by {
                assert(k2 < k);
            }
        }
        li = li + 1;
    }
    true
}

/// Is there a horizontal mirror between rows `r - 1` and `r`?
#[verifier::loop_isolation(false)]
fn is_mirror_row(p: &Vec<Vec<u8>>, r: usize) -> (b: bool)
    requires
        1 <= r < p@.len(),
    ensures
        b == mirror_row(views_of(p@), r as int),
{
    let ghost pv = views_of(p@);
    let h = p.len();
    let mut k: usize = 0;
    while k < r && k < h - r
        invariant
            0 <= k,
            1 <= r < h,
            h == p@.len(),
            forall|k2: int|
                0 <= k2 < k && r - 1 - k2 >= 0 && r + k2 < h ==> #[trigger] pv[r - 1 - k2] == pv[r
                    + k2],
        decreases h - k,
    {
        proof {
            assert(pv[r - 1 - k] == p@[r - 1 - k]@);
            assert(pv[r + k] == p@[r + k]@);
        }
        if !rows_eq(&p[r - 1 - k], &p[r + k]) {
            proof {
                assert(!mirror_row(pv, r as int));
            }
            return false;
        }
        k = k + 1;
    }
    proof {
        assert forall|k2: int|
            0 <= k2 && r - 1 - k2 >= 0 && r + k2 < pv.len() implies #[trigger] pv[r - 1 - k2]
            == pv[r + k2] by {
            assert(k2 < k);
        }
    }
    true
}

/// A pattern's part-one score.
#[verifier::loop_isolation(false)]
fn score1_exec(p: &Vec<Vec<u8>>) -> (r: u64)
    requires
        pat_rect(views_of(p@)),
        pat_width(views_of(p@)) <= 0x1000_0000,
        p@.len() <= 0x1000_0000,
    ensures
        r == score1(views_of(p@)),
{
    let ghost pv = views_of(p@);
    let w: usize = if p.len() == 0 {
        0
    } else {
        p[0].len()
    };
    proof {
        if p@.len() > 0 {
            assert(pv[0] == p@[0]@);
        }
        assert(w as int == pat_width(pv));
        lemma_first_vcol_bounds(pv, 1);
        lemma_first_hrow_bounds(pv, 1);
    }
    let mut v: u64 = 0;
    let mut c: usize = 1;
    let mut vfound = false;
    while c < w && !vfound
        invariant
            1 <= c,
            w as int == pat_width(pv),
            v <= 0x1000_0000,
            vfound ==> first_vcol(pv, 1) == v,
            !vfound ==> v == 0 && first_vcol(pv, 1) == first_vcol(pv, c as int),
        decreases w - c + (if vfound { 0int } else { 1int }),
    {
        if is_mirror_col(p, c) {
            v = c as u64;
            vfound = true;
            proof {
                assert(first_vcol(pv, c as int) == c);
            }
        } else {
            c = c + 1;
        }
    }
    proof {
        assert(v == first_vcol(pv, 1));
    }
    let mut hr: u64 = 0;
    let mut r2: usize = 1;
    let mut hfound = false;
    while r2 < p.len() && !hfound
        invariant
            1 <= r2,
            hr <= 0x1000_0000,
            p@.len() <= 0x1000_0000,
            hfound ==> first_hrow(pv, 1) == hr,
            !hfound ==> hr == 0 && first_hrow(pv, 1) == first_hrow(pv, r2 as int),
        decreases p@.len() - r2 + (if hfound { 0int } else { 1int }),
    {
        if is_mirror_row(p, r2) {
            hr = r2 as u64;
            hfound = true;
            proof {
                assert(first_hrow(pv, r2 as int) == r2);
            }
        } else {
            r2 = r2 + 1;
        }
    }
    proof {
        assert(hr == first_hrow(pv, 1));
    }
    v + 100 * hr
}

/// The pattern with the cell at `(li, co)` flipped.
#[verifier::loop_isolation(false)]
fn build_smudged(p: &Vec<Vec<u8>>, li: usize, co: usize) -> (r: Vec<Vec<u8>>)
    requires
        li < p@.len(),
        co < p@[li as int]@.len(),
    ensures
        views_of(r@) == smudged(views_of(p@), li as int, co as int),
        r@.len() == p@.len(),
{
    let ghost pv = views_of(p@);
    let mut r: Vec<Vec<u8>> = Vec::new();
    let mut t: usize = 0;
    while t < p.len()
        invariant
            0 <= t <= p@.len(),
            r@.len() == t,
            li < p@.len(),
            co < p@[li as int]@.len(),
            forall|x: int| 0 <= x < t ==> #[trigger] r@[x]@ == pv[x],
        decreases p@.len() - t,
    {
        proof {
            assert(pv[t as int] == p@[t as int]@);
        }
        let n = p[t].len();
        let cp = crate::text::subvec(&p[t], 0, n);
        proof {
            assert(cp@ =~= pv[t as int]);
        }
        r.push(cp);
        t = t + 1;
    }
    let b = r[li][co];
    let flipped: u8 = if b == 35 {
        46
    } else {
        35
    };
    let row = &mut r[li];
    row.set(co, flipped);
    proof {
        assert(r@[li as int]@ =~= pv[li as int].update(co as int, flipped));
        assert forall|x: int| 0 <= x < r@.len() implies #[trigger] views_of(r@)[x] == smudged(
            pv,
            li as int,
            co as int,
        )[x] by {
            if x != li {
                assert(r@[x]@ == pv[x]);
            }
        }
        assert(views_of(r@) =~= smudged(pv, li as int, co as int));
    }
    r
}

/// Does flipping some single cell create a mirror at column `c`?
#[verifier::loop_isolation(false)]
fn smudge_makes_col(p: &Vec<Vec<u8>>, c: usize) -> (found: bool)
    requires
        pat_rect(views_of(p@)),
        1 <= c < pat_width(views_of(p@)),
        pat_width(views_of(p@)) <= 0x1000_0000,
    ensures
        found == exists|li: int, co: int|
            0 <= li < p@.len() && 0 <= co < pat_width(views_of(p@)) && mirror_col(
                #[trigger] smudged(views_of(p@), li, co),
                c as int,
            ),
{
    let ghost pv = views_of(p@);
    let w = p[0].len();
    proof {
        assert(pv[0] == p@[0]@);
        assert(w as int == pat_width(pv));
    }
    let mut li: usize = 0;
    while li < p.len()
        invariant
            0 <= li <= p@.len(),
            forall|l2: int, c2: int|
                0 <= l2 < li && 0 <= c2 < pat_width(pv) ==> !mirror_col(
                    #[trigger] smudged(pv, l2, c2),
                    c as int,
                ),
        decreases p@.len() - li,
    {
        let mut co: usize = 0;
        while co < w
            invariant
                0 <= co <= w,
                li < p@.len(),
                forall|c2: int|
                    0 <= c2 < co ==> !mirror_col(#[trigger] smudged(pv, li as int, c2), c as int),
            decreases w - co,
        {
            proof {
                assert(pv[li as int].len() == pat_width(pv));
            }
            let sm = build_smudged(p, li, co);
            proof {
                assert(pat_rect(views_of(sm@))) by {
                    assert(forall|x: int|
                        0 <= x < views_of(sm@).len() ==> (#[trigger] views_of(sm@)[x]).len()
                            == pv[x].len());
                }
                assert(pat_width(views_of(sm@)) == pat_width(pv));
            }
            if is_mirror_col(&sm, c) {
                return true;
            }
            co = co + 1;
        }
        li = li + 1;
    }
    false
}

/// Does flipping some single cell create a mirror at row `r`?
#[verifier::loop_isolation(false)]
fn smudge_makes_row(p: &Vec<Vec<u8>>, r: usize) -> (found: bool)
    requires
        pat_rect(views_of(p@)),
        1 <= r < p@.len(),
        pat_width(views_of(p@)) <= 0x1000_0000,
    ensures
        found == exists|li: int, co: int|
            0 <= li < p@.len() && 0 <= co < pat_width(views_of(p@)) && mirror_row(
                #[trigger] smudged(views_of(p@), li, co),
                r as int,
            ),
{
    let ghost pv = views_of(p@);
    let w = p[0].len();
    proof {
        assert(pv[0] == p@[0]@);
        assert(w as int == pat_width(pv));
    }
    let mut li: usize = 0;
    while li < p.len()
        invariant
            0 <= li <= p@.len(),
            forall|l2: int, c2: int|
                0 <= l2 < li && 0 <= c2 < pat_width(pv) ==> !mirror_row(
                    #[trigger] smudged(pv, l2, c2),
                    r as int,
                ),
        decreases p@.len() - li,
    {
        let mut co: usize = 0;
        while co < w
            invariant
                0 <= co <= w,
                li < p@.len(),
                forall|c2: int|
                    0 <= c2 < co ==> !mirror_row(#[trigger] smudged(pv, li as int, c2), r as int),
            decreases w - co,
        {
            proof {
                assert(pv[li as int].len() == pat_width(pv));
            }
            let sm = build_smudged(p, li, co);
            if is_mirror_row(&sm, r) {
                return true;
            }
            co = co + 1;
        }
        li = li + 1;
    }
    false
}

/// A pattern's part-two score.
#[verifier::loop_isolation(false)]
fn score2_exec(p: &Vec<Vec<u8>>) -> (r: u64)
    requires
        pat_rect(views_of(p@)),
        pat_width(views_of(p@)) <= 0x1000_0000,
        p@.len() <= 0x1000_0000,
    ensures
        r == score2(views_of(p@)),
{
    let ghost pv = views_of(p@);
    let w: usize = if p.len() == 0 {
        0
    } else {
        p[0].len()
    };
    proof {
        if p@.len() > 0 {
            assert(pv[0] == p@[0]@);
        }
        assert(w as int == pat_width(pv));
        lemma_vsum2_bounds(pv, 1);
        lemma_hsum2_bounds(pv, 1);
    }
    let mut v: u64 = 0;
    let mut c: usize = 1;
    while c < w
        invariant
            1 <= c,
            c <= w || c == 1,
            w as int == pat_width(pv),
            vsum2(pv, 1) == v + vsum2(pv, c as int),
            0 <= v <= 0x1000_0000_0000_0000,
        decreases w - c,
    {
        proof {
            lemma_vsum2_bounds(pv, c as int + 1);
            lemma_vsum2_bounds(pv, 1);
            assert((pat_width(pv) - 1) * pat_width(pv) <= 0x1000_0000 * 0x1000_0000)
                by (nonlinear_arith)
                requires
                    1 <= pat_width(pv) <= 0x1000_0000,
            ;
        }
        let hit = if is_mirror_col(p, c) {
            false
        } else {
            smudge_makes_col(p, c)
        };
        if hit {
            proof {
                assert(is_new_v(pv, c as int));
            }
            v = v + c as u64;
        } else {
            proof {
                assert(!is_new_v(pv, c as int));
            }
        }
        c = c + 1;
    }
    proof {
        assert(v == vsum2(pv, 1));
    }
    let mut hs: u64 = 0;
    let mut r2: usize = 1;
    while r2 < p.len()
        invariant
            1 <= r2,
            r2 <= p@.len() || r2 == 1,
            hsum2(pv, 1) == hs + hsum2(pv, r2 as int),
            0 <= hs <= 0x1000_0000_0000_0000,
        decreases p@.len() - r2,
    {
        proof {
            lemma_hsum2_bounds(pv, r2 as int + 1);
            lemma_hsum2_bounds(pv, 1);
            assert((pv.len() - 1) * pv.len() <= 0x1000_0000 * 0x1000_0000) by (nonlinear_arith)
                requires
                    1 <= pv.len() <= 0x1000_0000,
            ;
        }
        let hit = if is_mirror_row(p, r2) {
            false
        } else {
            smudge_makes_row(p, r2)
        };
        if hit {
            proof {
                assert(is_new_h(pv, r2 as int));
            }
            hs = hs + r2 as u64;
        } else {
            proof {
                assert(!is_new_h(pv, r2 as int));
            }
        }
        r2 = r2 + 1;
    }
    proof {
        assert(hs == hsum2(pv, 1));
        assert(v == vsum2(pv, 1));
        lemma_vsum2_bounds(pv, 1);
        lemma_hsum2_bounds(pv, 1);
        assert((pat_width(pv) - 1) * pat_width(pv) <= 0x100_0000_0000_0000 || pat_width(pv) < 1)
            by (nonlinear_arith)
            requires
                0 <= pat_width(pv) <= 0x1000_0000,
        ;
        assert((pv.len() - 1) * pv.len() <= 0x100_0000_0000_0000 || pv.len() < 1)
            by (nonlinear_arith)
            requires
                0 <= pv.len() <= 0x1000_0000,
        ;
    }
    v + 100 * hs
}

/// Copies the pattern lines `lines[a..b)`.
#[verifier::loop_isolation(false)]
fn gather_pattern(lines: &Vec<Vec<u8>>, a: usize, b: usize) -> (r: Vec<Vec<u8>>)
    requires
        a <= b <= lines@.len(),
    ensures
        views_of(r@) == views_of(lines@).subrange(a as int, b as int),
        r@.len() == b - a,
{
    let mut r: Vec<Vec<u8>> = Vec::new();
    let mut t: usize = a;
    while t < b
        invariant
            a <= t <= b <= lines@.len(),
            r@.len() == t - a,
            forall|x: int| 0 <= x < t - a ==> #[trigger] r@[x]@ == lines@[a + x]@,
        decreases b - t,
    {
        let n = lines[t].len();
        let cp = crate::text::subvec(&lines[t], 0, n);
        proof {
            assert(cp@ =~= lines@[t as int]@);
        }
        r.push(cp);
        t = t + 1;
    }
    proof {
        assert(views_of(r@) =~= views_of(lines@).subrange(a as int, b as int));
    }
    r
}

/// Is the pattern rectangular, inside the accepted dimensions?
#[verifier::loop_isolation(false)]
fn check_pattern(p: &Vec<Vec<u8>>) -> (r: bool)
    ensures
        r == (pat_rect(views_of(p@)) && pat_width(views_of(p@)) <= 0x1000_0000 && p@.len()
            <= 0x1000_0000),
{
    let ghost pv = views_of(p@);
    if p.len() > 0x1000_0000 {
        return false;
    }
    let w: usize = if p.len() == 0 {
        0
    } else {
        p[0].len()
    };
    proof {
        if p@.len() > 0 {
            assert(pv[0] == p@[0]@);
        }
        assert(w as int == pat_width(pv));
    }
    if w > 0x1000_0000 {
        return false;
    }
    let mut t: usize = 0;
    while t < p.len()
        invariant
            0 <= t <= p@.len(),
            w as int == pat_width(pv),
            forall|x: int| 0 <= x < t ==> (#[trigger] pv[x]).len() == w,
        decreases p@.len() - t,
    {
        proof {
            assert(pv[t as int] == p@[t as int]@);
        }
        if p[t].len() != w {
            return false;
        }
        t = t + 1;
    }
    true
}

/// Is every pattern cell ash or rock?
#[verifier::loop_isolation(false)]
fn check_cells(p: &Vec<Vec<u8>>) -> (r: bool)
    ensures
        r == pat_cells_ok(views_of(p@)),
{
    let ghost pv = views_of(p@);
    let mut t: usize = 0;
    while t < p.len()
        invariant
            0 <= t <= p@.len(),
            forall|x: int, co: int|
                0 <= x < t && 0 <= co < pv[x].len() ==> #[trigger] pv[x][co] == 35 || pv[x][co]
                    == 46,
        decreases p@.len() - t,
    {
        proof {
            assert(pv[t as int] == p@[t as int]@);
        }
        let row = &p[t];
        let mut co: usize = 0;
        while co < row.len()
            invariant
                0 <= co <= row@.len(),
                t < p@.len(),
                row@ == pv[t as int],
                forall|c2: int|
                    0 <= c2 < co ==> #[trigger] row@[c2] == 35 || row@[c2] == 46,
            decreases row@.len() - co,
        {
            let b = row[co];
            if b != 35 && b != 46 {
                return false;
            }
            co = co + 1;
        }
        t = t + 1;
    }
    true
}

/// Sums the mirror scores of all patterns.
///
/// Returns the sum exactly when every pattern is rectangular and
/// inside the accepted dimensions and the sum fits in `u64`; returns
/// `None` otherwise.
#[verifier::loop_isolation(false)]
pub fn solve_part1(lines: &Vec<Vec<u8>>) -> (r: Option<u64>)
    ensures
        match r {
            Some(v) => notes_ok1(views_of(lines@), 0) && v == psum1(views_of(lines@), 0) && psum1(
                views_of(lines@),
                0,
            ) <= u64::MAX,
            None => !(notes_ok1(views_of(lines@), 0) && psum1(views_of(lines@), 0) <= u64::MAX),
        },
{
    let ghost lv = views_of(lines@);
    let mut acc: u64 = 0;
    let mut j: usize = 0;
    proof {
        lemma_psum1_nonneg(lv, 0);
    }
    while j < lines.len()
        invariant
            0 <= j <= lines@.len(),
            notes_ok1(lv, 0) == notes_ok1(lv, j as int),
            psum1(lv, 0) == acc + psum1(lv, j as int),
            acc <= u64::MAX,
        decreases lines@.len() - j,
    {
        let ghost j0 = j as int;
        // find the end of this pattern
        let mut e: usize = j;
        while e < lines.len() && lines[e].len() > 0
            invariant
                j <= e <= lines@.len(),
                forall|t: int| j <= t < e ==> (#[trigger] lv[t]).len() > 0,
            decreases lines@.len() - e,
        {
            proof {
                assert(lv[e as int] == lines@[e as int]@);
            }
            e = e + 1;
        }
        proof {
            if e < lines@.len() {
                assert(lv[e as int] == lines@[e as int]@);
            }
            lemma_pat_end_char(lv, j0, e as int);
        }
        let p = gather_pattern(lines, j, e);
        if !check_pattern(&p) {
            return None;
        }
        let s = score1_exec(&p);
        proof {
            lemma_first_vcol_bounds(views_of(p@), 1);
            lemma_first_hrow_bounds(views_of(p@), 1);
            lemma_psum1_nonneg(lv, if e < lv.len() {
                e as int + 1
            } else {
                e as int
            });
            lemma_psum1_nonneg(lv, 0);
        }
        if acc > u64::MAX - s {
            return None;
        }
        acc = acc + s;
        if e < lines.len() {
            j = e + 1;
        } else {
            j = e;
        }
    }
    proof {
        assert(psum1(lv, lines@.len() as int) == 0);
        assert(notes_ok1(lv, lines@.len() as int));
    }
    Some(acc)
}

/// `pat_end` is where the nonempty lines stop.
proof fn lemma_pat_end_char(lv: Seq<Seq<u8>>, j: int, e: int)
    requires
        0 <= j <= e <= lv.len(),
        forall|t: int| j <= t < e ==> (#[trigger] lv[t]).len() > 0,
        e == lv.len() || lv[e].len() == 0,
    ensures
        pat_end(lv, j) == e,
    decreases e - j,
{
    if j < e {
        lemma_pat_end_char(lv, j + 1, e);
    }
}

/// Sums the smudge scores of all patterns: each score counts only the
/// mirror lines that appear when a single cell is flipped.
///
/// Returns the sum exactly when every pattern is rectangular, made of
/// ash and rock, inside the accepted dimensions, and the sum fits in
/// `u64`; returns `None` otherwise.
#[verifier::loop_isolation(false)]
pub fn solve_part2(lines: &Vec<Vec<u8>>) -> (r: Option<u64>)
    ensures
        match r {
            Some(v) => notes_ok2(views_of(lines@), 0) && v == psum2(views_of(lines@), 0) && psum2(
                views_of(lines@),
                0,
            ) <= u64::MAX,
            None => !(notes_ok2(views_of(lines@), 0) && psum2(views_of(lines@), 0) <= u64::MAX),
        },
{
    let ghost lv = views_of(lines@);
    let mut acc: u64 = 0;
    let mut j: usize = 0;
    proof {
        lemma_psum2_nonneg(lv, 0);
    }
    while j < lines.len()
        invariant
            0 <= j <= lines@.len(),
            notes_ok2(lv, 0) == notes_ok2(lv, j as int),
            psum2(lv, 0) == acc + psum2(lv, j as int),
            acc <= u64::MAX,
        decreases lines@.len() - j,
    {
        let ghost j0 = j as int;
        let mut e: usize = j;
        while e < lines.len() && lines[e].len() > 0
            invariant
                j <= e <= lines@.len(),
                forall|t: int| j <= t < e ==> (#[trigger] lv[t]).len() > 0,
            decreases lines@.len() - e,
        {
            proof {
                assert(lv[e as int] == lines@[e as int]@);
            }
            e = e + 1;
        }
        proof {
            if e < lines@.len() {
                assert(lv[e as int] == lines@[e as int]@);
            }
            lemma_pat_end_char(lv, j0, e as int);
        }
        let p = gather_pattern(lines, j, e);
        if !check_pattern(&p) {
            return None;
        }
        if !check_cells(&p) {
            return None;
        }
        let s = score2_exec(&p);
        proof {
            lemma_vsum2_bounds(views_of(p@), 1);
            lemma_hsum2_bounds(views_of(p@), 1);
            lemma_psum2_nonneg(lv, if e < lv.len() {
                e as int + 1
            } else {
                e as int
            });
            lemma_psum2_nonneg(lv, 0);
        }
        if acc > u64::MAX - s {
            return None;
        }
        acc = acc + s;
        if e < lines.len() {
            j = e + 1;
        } else {
            j = e;
        }
    }
    proof {
        assert(psum2(lv, lines@.len() as int) == 0);
        assert(notes_ok2(lv, lines@.len() as int));
    }
    Some(acc)
}

} // verus!
