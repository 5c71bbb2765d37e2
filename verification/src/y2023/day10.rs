//! Pipe maze: a grid of pipe pieces holds one closed loop through the
//! start cell `S`.  A breadth-first walk from the start labels each
//! loop cell with its distance; part one reports the farthest label.
//! Part two counts the cells enclosed by the loop, scanning each row
//! and flipping an inside flag whenever the loop is fully crossed.

use vstd::prelude::*;
use crate::grid::{at_spec, flat_of, flatten, rect, width_of, lemma_flat_len};
use crate::text::views_of;

verus! {

/// Largest accepted grid dimension.
pub const DIM_MAX: usize = 0x4000_0000;

/// Directions: north, south, east, west.
pub open spec fn delta(d: int) -> (int, int) {
    if d == 0 {
        (0, -1)
    } else if d == 1 {
        (0, 1)
    } else if d == 2 {
        (1, 0)
    } else {
        (-1, 0)
    }
}

/// The opposite direction.
pub open spec fn rev_dir(d: int) -> int {
    if d == 0 {
        1
    } else if d == 1 {
        0
    } else if d == 2 {
        3
    } else {
        2
    }
}

/// The directions a pipe piece connects, in the piece's listed order.
pub open spec fn conn_dirs(kind: u8) -> Seq<int> {
    if kind == 124 {  // |
        seq![0, 1]
    } else if kind == 45 {  // -
        seq![2, 3]
    } else if kind == 76 {  // L
        seq![0, 2]
    } else if kind == 74 {  // J
        seq![0, 3]
    } else if kind == 55 {  // 7
        seq![1, 3]
    } else if kind == 70 {  // F
        seq![1, 2]
    } else if kind == 83 {  // S
        seq![0, 1, 2, 3]
    } else {
        seq![]
    }
}

pub open spec fn has_dir(kind: u8, d: int) -> bool {
    conn_dirs(kind).contains(d)
}

/// A maze byte is a pipe piece, ground, or the start.
pub open spec fn valid_kind(b: u8) -> bool {
    b == 124 || b == 45 || b == 76 || b == 74 || b == 55 || b == 70 || b == 46 || b == 83
}

/// The flat index a coordinate reads and writes, or `-1` outside.
pub open spec fn idx_of(f: Seq<u8>, w: int, x: int, y: int) -> int {
    if x >= 0 && y >= 0 && x + y * w < f.len() {
        x + y * w
    } else {
        -1
    }
}

/// Is the cell at `(x, y)` labelled in `depths`?
pub open spec fn seen(f: Seq<u8>, w: int, depths: Seq<int>, x: int, y: int) -> bool {
    let i = idx_of(f, w, x, y);
    i >= 0 && depths[i] >= 0
}

/// Do the pieces at `c` and one step in direction `d` connect?
pub open spec fn can_connect(f: Seq<u8>, w: int, x: int, y: int, d: int) -> bool {
    let (dx, dy) = delta(d);
    has_dir(at_spec(f, w, x, y), d) && has_dir(at_spec(f, w, x + dx, y + dy), rev_dir(d))
}

/// The unlabelled neighbours the cell at `(x, y)` connects to,
/// walking its piece's directions from `j` on.
pub open spec fn conn_from(f: Seq<u8>, w: int, depths: Seq<int>, x: int, y: int, j: int) -> Seq<
    (int, int),
>
    decreases conn_dirs(at_spec(f, w, x, y)).len() - j,
{
    let ds = conn_dirs(at_spec(f, w, x, y));
    if j < 0 || j >= ds.len() {
        Seq::empty()
    } else {
        let d = ds[j];
        let (dx, dy) = delta(d);
        let keep = !seen(f, w, depths, x + dx, y + dy) && can_connect(f, w, x, y, d);
        (if keep {
            seq![(x + dx, y + dy)]
        } else {
            Seq::empty()
        }) + conn_from(f, w, depths, x, y, j + 1)
    }
}

/// All the unlabelled neighbours the cell connects to.
pub open spec fn connecting(f: Seq<u8>, w: int, depths: Seq<int>, x: int, y: int) -> Seq<
    (int, int),
> {
    conn_from(f, w, depths, x, y, 0)
}

/// Labels the frontier cells `paths[j..]` with depth `d`.
pub open spec fn mark_from(depths: Seq<int>, f: Seq<u8>, w: int, paths: Seq<(int, int)>, j: int, d: int) -> Seq<int>
    decreases paths.len() - j,
{
    if j < 0 || j >= paths.len() {
        depths
    } else {
        let i = idx_of(f, w, paths[j].0, paths[j].1);
        let depths2 = if 0 <= i < depths.len() {
            depths.update(i, d)
        } else {
            depths
        };
        mark_from(depths2, f, w, paths, j + 1, d)
    }
}

/// The next frontier: the unlabelled connections of `paths[j..]`.
pub open spec fn frontier_from(f: Seq<u8>, w: int, depths: Seq<int>, paths: Seq<(int, int)>, j: int) -> Seq<(int, int)>
    decreases paths.len() - j,
{
    if j < 0 || j >= paths.len() {
        Seq::empty()
    } else {
        connecting(f, w, depths, paths[j].0, paths[j].1) + frontier_from(f, w, depths, paths, j + 1)
    }
}

/// The number of unlabelled cells.
pub open spec fn unmarked(depths: Seq<int>) -> int
    decreases depths.len(),
{
    if depths.len() == 0 {
        0
    } else {
        unmarked(depths.drop_last()) + if depths.last() < 0 {
            1int
        } else {
            0int
        }
    }
}

/// Some frontier cell is in range and unlabelled, so a step makes
/// progress.
pub open spec fn has_fresh(f: Seq<u8>, w: int, depths: Seq<int>, paths: Seq<(int, int)>) -> bool {
    exists|j: int|
        0 <= j < paths.len() && idx_of(f, w, (#[trigger] paths[j]).0, paths[j].1) >= 0 && depths[
            idx_of(f, w, paths[j].0, paths[j].1)
        ] < 0
}

/// The labels after the whole breadth-first walk: each frontier is
/// labelled `d` and replaced by its unlabelled connections.
pub open spec fn bfs(f: Seq<u8>, w: int, depths: Seq<int>, paths: Seq<(int, int)>, d: int) -> Seq<
    int,
>
    decreases unmarked(depths),
    via bfs_decreases
{
    if paths.len() == 0 || !has_fresh(f, w, depths, paths) || d < 1 || depths.len() != f.len() {
        depths
    } else {
        let depths2 = mark_from(depths, f, w, paths, 0, d);
        bfs(f, w, depths2, frontier_from(f, w, depths2, paths, 0), d + 1)
    }
}

#[via_fn]
proof fn bfs_decreases(f: Seq<u8>, w: int, depths: Seq<int>, paths: Seq<(int, int)>, d: int) {
    lemma_unmarked_nonneg(depths);
    if paths.len() != 0 && has_fresh(f, w, depths, paths) && d >= 1 && depths.len() == f.len() {
        let j = choose|j: int|
            0 <= j < paths.len() && idx_of(f, w, (#[trigger] paths[j]).0, paths[j].1) >= 0
                && depths[idx_of(f, w, paths[j].0, paths[j].1)] < 0;
        lemma_mark_progress(depths, f, w, paths, 0, d, j);
        lemma_unmarked_nonneg(mark_from(depths, f, w, paths, 0, d));
    }
}

proof fn lemma_unmarked_nonneg(depths: Seq<int>)
    ensures
        0 <= unmarked(depths) <= depths.len(),
    decreases depths.len(),
{
    if depths.len() > 0 {
        lemma_unmarked_nonneg(depths.drop_last());
    }
}

/// Updating one entry never raises the unlabelled count, and labelling
/// an unlabelled entry lowers it.
proof fn lemma_unmarked_update(depths: Seq<int>, i: int, d: int)
    requires
        0 <= i < depths.len(),
        d >= 0,
    ensures
        unmarked(depths.update(i, d)) == unmarked(depths) - (if depths[i] < 0 {
            1int
        } else {
            0int
        }),
    decreases depths.len(),
{
    if i == depths.len() - 1 {
        assert(depths.update(i, d).drop_last() =~= depths.drop_last());
    } else {
        assert(depths.update(i, d).drop_last() =~= depths.drop_last().update(i, d));
        lemma_unmarked_update(depths.drop_last(), i, d);
    }
}

/// Marking a frontier that still holds a fresh cell at or after `j`
/// strictly lowers the unlabelled count; marking never raises it.
proof fn lemma_mark_progress(depths: Seq<int>, f: Seq<u8>, w: int, paths: Seq<(int, int)>, j: int, d: int, fresh: int)
    requires
        d >= 0,
        0 <= j <= fresh < paths.len(),
        idx_of(f, w, paths[fresh].0, paths[fresh].1) >= 0,
        depths[idx_of(f, w, paths[fresh].0, paths[fresh].1)] < 0,
        idx_of(f, w, paths[fresh].0, paths[fresh].1) < depths.len(),
    ensures
        unmarked(mark_from(depths, f, w, paths, j, d)) < unmarked(depths),
    decreases paths.len() - j,
{
    let i = idx_of(f, w, paths[j].0, paths[j].1);
    if j == fresh {
        lemma_unmarked_update(depths, i, d);
        lemma_mark_mono(depths.update(i, d), f, w, paths, j + 1, d);
    } else {
        if 0 <= i < depths.len() {
            lemma_unmarked_update(depths, i, d);
            if depths.update(i, d)[idx_of(f, w, paths[fresh].0, paths[fresh].1)] < 0 {
                lemma_mark_progress(depths.update(i, d), f, w, paths, j + 1, d, fresh);
            } else {
                lemma_mark_mono(depths.update(i, d), f, w, paths, j + 1, d);
            }
        } else {
            lemma_mark_progress(depths, f, w, paths, j + 1, d, fresh);
        }
    }
}

/// Marking never raises the unlabelled count.
proof fn lemma_mark_mono(depths: Seq<int>, f: Seq<u8>, w: int, paths: Seq<(int, int)>, j: int, d: int)
    requires
        d >= 0,
    ensures
        unmarked(mark_from(depths, f, w, paths, j, d)) <= unmarked(depths),
        mark_from(depths, f, w, paths, j, d).len() == depths.len(),
    decreases paths.len() - j,
{
    if 0 <= j < paths.len() {
        let i = idx_of(f, w, paths[j].0, paths[j].1);
        if 0 <= i < depths.len() {
            lemma_unmarked_update(depths, i, d);
            lemma_mark_mono(depths.update(i, d), f, w, paths, j + 1, d);
        } else {
            lemma_mark_mono(depths, f, w, paths, j + 1, d);
        }
    }
}

/// The index of the first start piece, or the length when none.
pub open spec fn first_s(f: Seq<u8>) -> int
    decreases f.len(),
{
    if f.len() == 0 {
        0
    } else if f[0] == 83 {
        0
    } else {
        1 + first_s(f.drop_first())
    }
}

proof fn lemma_first_s(f: Seq<u8>, i: int)
    requires
        0 <= i <= f.len(),
        forall|j: int| 0 <= j < i ==> f[j] != 83,
        i == f.len() || f[i] == 83,
    ensures
        first_s(f) == i,
    decreases i,
{
    if f.len() > 0 && f[0] != 83 {
        assert(forall|j: int| 0 <= j < i - 1 ==> f.drop_first()[j] == f[j + 1]);
        lemma_first_s(f.drop_first(), i - 1);
    }
}

/// The initial labels: every start piece at distance zero, the rest
/// unlabelled.
pub open spec fn init_depths(f: Seq<u8>) -> Seq<int> {
    Seq::new(f.len(), |i: int| if f[i] == 83 { 0int } else { -1int })
}

/// The labels after the whole walk from the start.
pub open spec fn final_depths(f: Seq<u8>, w: int) -> Seq<int> {
    let s = first_s(f);
    let d0 = init_depths(f);
    bfs(f, w, d0, connecting(f, w, d0, s % w, s / w), 1)
}

/// The farthest label, or zero with nothing labelled.
pub open spec fn max_depth(depths: Seq<int>) -> int
    decreases depths.len(),
{
    if depths.len() == 0 {
        0
    } else {
        let rest = max_depth(depths.drop_last());
        if depths.last() >= rest {
            depths.last()
        } else {
            rest
        }
    }
}

/// A maze input is well formed: rectangular, inside the accepted
/// dimensions, every byte a pipe piece, and exactly one start.
pub open spec fn maze_ok(lv: Seq<Seq<u8>>) -> bool {
    &&& rect(lv)
    &&& lv.len() <= DIM_MAX
    &&& 0 < width_of(lv) <= DIM_MAX
    &&& forall|i: int| 0 <= i < flat_of(lv).len() ==> valid_kind(#[trigger] flat_of(lv)[i])
    &&& first_s(flat_of(lv)) < flat_of(lv).len()
    &&& forall|i: int|
        first_s(flat_of(lv)) < i < flat_of(lv).len() ==> #[trigger] flat_of(lv)[i] != 83
}

/// Does the piece `kind` open towards direction `d`?
pub open spec fn opens(kind: u8, d: int) -> bool {
    if kind == 124 {
        d == 0 || d == 1
    } else if kind == 45 {
        d == 2 || d == 3
    } else if kind == 76 {
        d == 0 || d == 2
    } else if kind == 74 {
        d == 0 || d == 3
    } else if kind == 55 {
        d == 1 || d == 3
    } else if kind == 70 {
        d == 1 || d == 2
    } else if kind == 83 {
        0 <= d <= 3
    } else {
        false
    }
}

/// The two views of a piece's openings agree.
pub proof fn lemma_opens_conn_dirs(kind: u8, d: int)
    ensures
        opens(kind, d) == has_dir(kind, d),
{
    let ds = conn_dirs(kind);
    if opens(kind, d) {
        assert(ds.contains(d)) by {
            if ds.len() >= 1 && ds[0] == d {
            } else if ds.len() >= 2 && ds[1] == d {
            } else if ds.len() >= 3 && ds[2] == d {
            } else if ds.len() >= 4 && ds[3] == d {
            }
        }
    } else {
        assert(!ds.contains(d)) by {
            assert forall|i: int| 0 <= i < ds.len() implies ds[i] != d by {}
        }
    }
}

/// The maze: its pieces flattened row by row, and the distance labels
/// the walk assigns.
pub struct PipeMaze {
    pub width: usize,
    pub kinds: Vec<u8>,
    pub depths: Vec<i64>,
}

impl PipeMaze {
    /// The maze's basic shape.
    pub open spec fn wf(&self) -> bool {
        &&& 0 < self.width <= DIM_MAX
        &&& self.kinds@.len() <= 0x1000_0000_0000_0000
        &&& self.kinds@.len() == self.depths@.len()
        &&& forall|i: int| 0 <= i < self.kinds@.len() ==> valid_kind(#[trigger] self.kinds@[i])
    }

    /// Reads the maze from the input lines.
    ///
    /// Returns it exactly when the input is rectangular, inside the
    /// accepted dimensions, every byte a pipe piece, and exactly one
    /// start; returns `None` otherwise.
    #[verifier::loop_isolation(false)]
    pub fn from(lines: &Vec<Vec<u8>>) -> (r: Option<PipeMaze>)
        ensures
            match r {
                Some(m) => {
                    &&& maze_ok(views_of(lines@))
                    &&& m.wf()
                    &&& m.kinds@ == flat_of(views_of(lines@))
                    &&& m.width as int == width_of(views_of(lines@))
                    &&& crate::text::ints_of(m.depths@) == init_depths(flat_of(views_of(lines@)))
                },
                None => !maze_ok(views_of(lines@)),
            },
    {
        let ghost lv = views_of(lines@);
        if lines.len() == 0 || lines.len() > DIM_MAX {
            proof {
                if lines@.len() == 0 {
                    assert(flat_of(lv) =~= Seq::<u8>::empty());
                    assert(first_s(flat_of(lv)) == 0);
                }
            }
            return None;
        }
        let f = match flatten(lines) {
            None => {
                return None;
            },
            Some(f) => f,
        };
        let w = lines[0].len();
        proof {
            assert(lv[0] == lines@[0]@);
            assert(width_of(lv) == w as int);
            lemma_flat_len(lv);
        }
        if w == 0 || w > DIM_MAX {
            proof {
                if w == 0 {
                    assert(flat_of(lv).len() == 0) by (nonlinear_arith)
                        requires
                            flat_of(lv).len() == lv.len() * width_of(lv),
                            width_of(lv) == 0,
                    ;
                    assert(first_s(flat_of(lv)) == 0);
                }
            }
            return None;
        }
        proof {
            assert(f@.len() <= 0x1000_0000_0000_0000) by (nonlinear_arith)
                requires
                    f@.len() == lv.len() * width_of(lv),
                    0 <= lv.len() <= DIM_MAX as int,
                    0 <= width_of(lv) <= DIM_MAX as int,
            ;
        }
        // every byte a piece, exactly one start
        let mut depths: Vec<i64> = Vec::new();
        let mut scount: usize = 0;
        let mut i: usize = 0;
        while i < f.len()
            invariant
                0 <= i <= f@.len(),
                depths@.len() == i,
                forall|t: int| 0 <= t < i ==> valid_kind(#[trigger] f@[t]),
                forall|t: int|
                    0 <= t < i ==> #[trigger] depths@[t] as int == init_depths(f@)[t],
                scount <= i,
                scount == 0 ==> forall|t: int| 0 <= t < i ==> #[trigger] f@[t] != 83,
                scount >= 1 ==> first_s(f@) < i && f@[first_s(f@)] == 83,
                scount == 1 ==> forall|t: int|
                    first_s(f@) < t < i ==> #[trigger] f@[t] != 83,
                scount >= 2 ==> exists|t: int|
                    first_s(f@) < t < i && #[trigger] f@[t] == 83,
            decreases f@.len() - i,
        {
            let b = f[i];
            if !(b == 124 || b == 45 || b == 76 || b == 74 || b == 55 || b == 70 || b == 46 || b
                == 83) {
                return None;
            }
            if b == 83 {
                proof {
                    if scount == 0 {
                        lemma_first_s(f@, i as int);
                    }
                }
                scount = scount + 1;
                depths.push(0);
            } else {
                depths.push(-1);
            }
            i = i + 1;
        }
        if scount != 1 {
            proof {
                if scount == 0 {
                    lemma_first_s(f@, f@.len() as int);
                }
            }
            return None;
        }
        proof {
            assert(crate::text::ints_of(depths@) =~= init_depths(f@));
        }
        Some(PipeMaze { width: w, kinds: f, depths })
    }

    /// Walks the loop breadth first, labelling each reached cell with
    /// its distance from the start, and reports the farthest label.
    #[verifier::loop_isolation(false)]
    #[verifier::rlimit(60)]
    pub fn traverse(&mut self) -> (r: u64)
        requires
            old(self).wf(),
            crate::text::ints_of(old(self).depths@) == init_depths(old(self).kinds@),
            first_s(old(self).kinds@) < old(self).kinds@.len(),
        ensures
            final(self).wf(),
            final(self).kinds@ == old(self).kinds@,
            final(self).width == old(self).width,
            crate::text::ints_of(final(self).depths@) == final_depths(
                old(self).kinds@,
                old(self).width as int,
            ),
            r == max_depth(final_depths(old(self).kinds@, old(self).width as int)),
    {
        let ghost f = self.kinds@;
        let ghost w = self.width as int;
        let si = find_start(&self.kinds);
        let sx = (si % self.width) as i64;
        let sy = (si / self.width) as i64;
        proof {
            vstd::arithmetic::div_mod::lemma_fundamental_div_mod(si as int, w);
            vstd::arithmetic::div_mod::lemma_mod_bound(si as int, w);
            vstd::arithmetic::div_mod::lemma_div_pos_is_pos(si as int, w);
            vstd::arithmetic::div_mod::lemma_div_nonincreasing(si as int, w);
        }
        let mut paths = connecting_exec(&self.kinds, self.width, &self.depths, sx, sy);
        let mut d: i64 = 1;
        let ghost fd = final_depths(f, w);
        proof {
            lemma_unmarked_nonneg(crate::text::ints_of(self.depths@));
            assert(fd == bfs(
                f,
                w,
                crate::text::ints_of(self.depths@),
                pairs_i64(paths@),
                1,
            ));
        }
        while paths.len() > 0
            invariant
                self.wf(),
                self.kinds@ == f,
                self.width as int == w,
                self.depths@.len() == f.len(),
                1 <= d,
                d + unmarked(crate::text::ints_of(self.depths@)) <= f.len() + 1,
                fd == bfs(f, w, crate::text::ints_of(self.depths@), pairs_i64(paths@), d as int),
                fresh_frontier(f, w, crate::text::ints_of(self.depths@), pairs_i64(paths@)),
            decreases unmarked(crate::text::ints_of(self.depths@)),
        {
            let ghost dep0 = crate::text::ints_of(self.depths@);
            let ghost pm = pairs_i64(paths@);
            proof {
                assert(has_fresh(f, w, dep0, pm)) by {
                    assert(pm[0] == (paths@[0].0 as int, paths@[0].1 as int));
                }
            }
            proof {
                lemma_unmarked_nonneg(dep0);
            }
            // label the whole frontier
            let mut j: usize = 0;
            while j < paths.len()
                invariant
                    0 <= j <= paths@.len(),
                    self.wf(),
                    self.kinds@ == f,
                    self.width as int == w,
                    self.depths@.len() == f.len(),
                    pm == pairs_i64(paths@),
                    fresh_frontier(f, w, dep0, pm),
                    1 <= d <= f.len() + 1,
                    mark_from(dep0, f, w, pm, 0, d as int) == mark_from(
                        crate::text::ints_of(self.depths@),
                        f,
                        w,
                        pm,
                        j as int,
                        d as int,
                    ),
                decreases paths@.len() - j,
            {
                let (x, y) = paths[j];
                proof {
                    assert(pm[j as int] == (x as int, y as int));
                    assert(idx_of(f, w, x as int, y as int) >= 0);
                    assert(x >= 0 && y >= 0 && (x as int) + (y as int) * w < f.len());
                    assert(0 <= (y as int) * w) by (nonlinear_arith)
                        requires
                            y >= 0,
                            w >= 0,
                    ;
                    assert((y as int) * w < f.len());
                    assert(self.depths@.len() == f.len());
                }
                let vl = self.depths.len();
                proof {
                    assert(vl == f.len());
                }
                let ii: i64 = x + y * (self.width as i64);
                let iu = ii as usize;
                let ghost pre = crate::text::ints_of(self.depths@);
                proof {
                    assert(iu as int == idx_of(f, w, x as int, y as int));
                    assert(iu < vl);
                }
                self.depths.set(iu, d);
                proof {
                    assert(crate::text::ints_of(self.depths@) =~= pre.update(iu as int, d as int));
                    assert(mark_from(pre, f, w, pm, j as int, d as int) == mark_from(
                        crate::text::ints_of(self.depths@),
                        f,
                        w,
                        pm,
                        j + 1,
                        d as int,
                    ));
                }
                j = j + 1;
            }
            let ghost dep2 = crate::text::ints_of(self.depths@);
            proof {
                assert(dep2 == mark_from(dep0, f, w, pm, 0, d as int));
                lemma_mark_progress_frontier(dep0, f, w, pm, d as int);
                lemma_unmarked_nonneg(dep2);
            }
            // gather the next frontier
            let mut next: Vec<(i64, i64)> = Vec::new();
            let mut j2: usize = 0;
            proof {
                assert(pairs_i64(next@) + frontier_from(f, w, dep2, pm, 0) =~= frontier_from(
                    f,
                    w,
                    dep2,
                    pm,
                    0,
                ));
            }
            while j2 < paths.len()
                invariant
                    0 <= j2 <= paths@.len(),
                    self.wf(),
                    self.kinds@ == f,
                    self.width as int == w,
                    self.depths@.len() == f.len(),
                    dep2 == crate::text::ints_of(self.depths@),
                    pm == pairs_i64(paths@),
                    frontier_from(f, w, dep2, pm, 0) == pairs_i64(next@) + frontier_from(
                        f,
                        w,
                        dep2,
                        pm,
                        j2 as int,
                    ),
                    fresh_frontier(f, w, dep2, pairs_i64(next@)),
                    forall|t: int|
                        0 <= t < pm.len() ==> idx_of(f, w, (#[trigger] pm[t]).0, pm[t].1) >= 0,
                decreases paths@.len() - j2,
            {
                let (x, y) = paths[j2];
                proof {
                    assert(pm[j2 as int] == (x as int, y as int));
                    assert(idx_of(f, w, x as int, y as int) >= 0);
                    assert(x >= 0 && y >= 0 && (x as int) + (y as int) * w < f.len());
                    assert((y as int) <= (y as int) * w) by (nonlinear_arith)
                        requires
                            y >= 0,
                            w >= 1,
                    ;
                }
                let conns = connecting_exec(&self.kinds, self.width, &self.depths, x, y);
                let ghost pre_next = pairs_i64(next@);
                let mut t: usize = 0;
                while t < conns.len()
                    invariant
                        0 <= t <= conns@.len(),
                        pairs_i64(next@) =~= pre_next + pairs_i64(conns@).take(t as int),
                    decreases conns@.len() - t,
                {
                    let c = conns[t];
                    let ghost before = next@;
                    next.push(c);
                    proof {
                        assert(c == conns@[t as int]);
                        assert(pairs_i64(conns@)[t as int] == (c.0 as int, c.1 as int));
                        lemma_pairs_push(before, c);
                        assert(pairs_i64(conns@).take(t as int).push(
                            (c.0 as int, c.1 as int),
                        ) =~= pairs_i64(conns@).take(t + 1));
                        assert(pairs_i64(next@) =~= pre_next + pairs_i64(conns@).take(t + 1));
                    }
                    t = t + 1;
                }
                proof {
                    assert(pairs_i64(conns@).take(conns@.len() as int) =~= pairs_i64(conns@));
                    assert(pairs_i64(next@) =~= pre_next + pairs_i64(conns@));
                    assert(frontier_from(f, w, dep2, pm, j2 as int) == connecting(
                        f,
                        w,
                        dep2,
                        x as int,
                        y as int,
                    ) + frontier_from(f, w, dep2, pm, j2 + 1));
                }
                j2 = j2 + 1;
            }
            proof {
                assert(frontier_from(f, w, dep2, pm, pm.len() as int) =~= Seq::<(
                    int,
                    int,
                )>::empty());
                assert(pairs_i64(next@) =~= frontier_from(f, w, dep2, pm, 0));
            }
            paths = next;
            d = d + 1;
        }
        proof {
            assert(pairs_i64(paths@).len() == 0);
            assert(crate::text::ints_of(self.depths@) == fd);
        }
        // the farthest label
        let ghost dv = crate::text::ints_of(self.depths@);
        let mut best: i64 = 0;
        let mut i: usize = 0;
        proof {
            assert(max_depth(dv.take(0)) == 0) by {
                assert(dv.take(0) =~= Seq::<int>::empty());
            }
        }
        while i < self.depths.len()
            invariant
                0 <= i <= self.depths@.len(),
                dv == crate::text::ints_of(self.depths@),
                best == max_depth(dv.take(i as int)),
                0 <= best,
            decreases self.depths@.len() - i,
        {
            let v = self.depths[i];
            proof {
                assert(dv.take(i + 1).drop_last() =~= dv.take(i as int));
                assert(dv.take(i + 1).last() == dv[i as int]);
                assert(dv[i as int] == self.depths@[i as int] as int);
            }
            if v > best {
                best = v;
            }
            i = i + 1;
        }
        proof {
            assert(dv.take(dv.len() as int) =~= dv);
        }
        best as u64
    }
}

/// The coordinate pairs a machine list denotes.
pub open spec fn pairs_i64(v: Seq<(i64, i64)>) -> Seq<(int, int)> {
    Seq::new(v.len(), |k: int| (v[k].0 as int, v[k].1 as int))
}

proof fn lemma_pairs_push(v: Seq<(i64, i64)>, c: (i64, i64))
    ensures
        pairs_i64(v.push(c)) =~= pairs_i64(v).push((c.0 as int, c.1 as int)),
{
    assert forall|k: int| 0 <= k < pairs_i64(v.push(c)).len() implies pairs_i64(v.push(c))[k]
        == pairs_i64(v).push((c.0 as int, c.1 as int))[k] by {
        if k < v.len() {
            assert(v.push(c)[k] == v[k]);
        } else {
            assert(v.push(c)[k] == c);
        }
    }
}

/// Every cell of the frontier has a valid flat index, is unlabelled,
/// and sits inside the accepted coordinate window.
pub open spec fn fresh_frontier(f: Seq<u8>, w: int, depths: Seq<int>, paths: Seq<(int, int)>) -> bool {
    forall|j: int|
        0 <= j < paths.len() ==> {
            let c = #[trigger] paths[j];
            idx_of(f, w, c.0, c.1) >= 0 && depths[idx_of(f, w, c.0, c.1)] < 0
        }
}

/// Marking a nonempty fresh frontier makes progress.
proof fn lemma_mark_progress_frontier(depths: Seq<int>, f: Seq<u8>, w: int, paths: Seq<(int, int)>, d: int)
    requires
        d >= 1,
        paths.len() > 0,
        depths.len() == f.len(),
        fresh_frontier(f, w, depths, paths),
    ensures
        unmarked(mark_from(depths, f, w, paths, 0, d)) < unmarked(depths),
{
    lemma_mark_progress(depths, f, w, paths, 0, d, 0);
}

/// The index of the first start piece.
#[verifier::loop_isolation(false)]
fn find_start(f: &Vec<u8>) -> (r: usize)
    requires
        first_s(f@) < f@.len(),
    ensures
        r as int == first_s(f@),
        r < f@.len(),
{
    let mut i: usize = 0;
    while i < f.len()
        invariant
            0 <= i <= f@.len(),
            forall|j: int| 0 <= j < i ==> f@[j] != 83,
        decreases f@.len() - i,
    {
        if f[i] == 83 {
            proof {
                lemma_first_s(f@, i as int);
            }
            return i;
        }
        i = i + 1;
    }
    proof {
        lemma_first_s(f@, f@.len() as int);
    }
    0
}

/// The piece at `(x, y)`, ground outside the grid.
fn pipe_at(f: &Vec<u8>, w: usize, x: i64, y: i64) -> (b: u8)
    requires
        f@.len() <= 0x1000_0000_0000_0000,
        0 < w <= DIM_MAX,
        -2 <= x <= 0x1000_0000_0000_0002,
        -2 <= y <= 0x1000_0000_0000_0002,
    ensures
        b == at_spec(f@, w as int, x as int, y as int),
{
    if x < 0 || y < 0 {
        return 46;
    }
    let yl = f.len() / w;
    proof {
        vstd::arithmetic::div_mod::lemma_fundamental_div_mod(f@.len() as int, w as int);
        if y > yl {
            assert((y as int) * (w as int) > f@.len()) by (nonlinear_arith)
                requires
                    y >= f@.len() as int / w as int + 1,
                    f@.len() as int == (w as int) * (f@.len() as int / w as int) + (
                    f@.len() as int) % (w as int),
                    0 <= (f@.len() as int) % (w as int),
                    (f@.len() as int) % (w as int) < w as int,
                    w >= 1,
            ;
        } else {
            assert(0 <= (y as int) * (w as int) <= f@.len()) by (nonlinear_arith)
                requires
                    0 <= y <= f@.len() as int / w as int,
                    f@.len() as int == (w as int) * (f@.len() as int / w as int) + (
                    f@.len() as int) % (w as int),
                    0 <= (f@.len() as int) % (w as int),
                    (f@.len() as int) % (w as int) < w as int,
                    w >= 1,
            ;
        }
    }
    if y > yl as i64 {
        return 46;
    }
    let idx = x + y * (w as i64);
    if idx < f.len() as i64 {
        f[idx as usize]
    } else {
        46
    }
}

/// The label of the cell at `(x, y)`, `-1` outside the grid.
fn cell_depth(f: &Vec<u8>, w: usize, depths: &Vec<i64>, x: i64, y: i64) -> (r: i64)
    requires
        f@.len() <= 0x1000_0000_0000_0000,
        0 < w <= DIM_MAX,
        depths@.len() == f@.len(),
        -2 <= x <= 0x1000_0000_0000_0002,
        -2 <= y <= 0x1000_0000_0000_0002,
    ensures
        ({
            let i = idx_of(f@, w as int, x as int, y as int);
            if i >= 0 {
                r == crate::text::ints_of(depths@)[i]
            } else {
                r == -1
            }
        }),
{
    if x < 0 || y < 0 {
        return -1;
    }
    let yl = f.len() / w;
    proof {
        vstd::arithmetic::div_mod::lemma_fundamental_div_mod(f@.len() as int, w as int);
        if y > yl {
            assert((y as int) * (w as int) > f@.len()) by (nonlinear_arith)
                requires
                    y >= f@.len() as int / w as int + 1,
                    f@.len() as int == (w as int) * (f@.len() as int / w as int) + (
                    f@.len() as int) % (w as int),
                    0 <= (f@.len() as int) % (w as int),
                    (f@.len() as int) % (w as int) < w as int,
                    w >= 1,
            ;
        } else {
            assert(0 <= (y as int) * (w as int) <= f@.len()) by (nonlinear_arith)
                requires
                    0 <= y <= f@.len() as int / w as int,
                    f@.len() as int == (w as int) * (f@.len() as int / w as int) + (
                    f@.len() as int) % (w as int),
                    0 <= (f@.len() as int) % (w as int),
                    (f@.len() as int) % (w as int) < w as int,
                    w >= 1,
            ;
        }
    }
    if y > yl as i64 {
        return -1;
    }
    let idx = x + y * (w as i64);
    if idx < f.len() as i64 {
        depths[idx as usize]
    } else {
        -1
    }
}

/// Does the piece `kind` open towards `d`?
fn opens_exec(kind: u8, d: u8) -> (b: bool)
    requires
        d <= 3,
    ensures
        b == opens(kind, d as int),
{
    if kind == 124 {
        d == 0 || d == 1
    } else if kind == 45 {
        d == 2 || d == 3
    } else if kind == 76 {
        d == 0 || d == 2
    } else if kind == 74 {
        d == 0 || d == 3
    } else if kind == 55 {
        d == 1 || d == 3
    } else if kind == 70 {
        d == 1 || d == 2
    } else if kind == 83 {
        true
    } else {
        false
    }
}

/// The directions the piece lists, in order.
fn dirs_of(kind: u8) -> (r: Vec<u8>)
    ensures
        r@.len() == conn_dirs(kind).len(),
        forall|j: int| 0 <= j < r@.len() ==> #[trigger] r@[j] as int == conn_dirs(kind)[j],
        forall|j: int| 0 <= j < r@.len() ==> #[trigger] r@[j] <= 3,
{
    let mut r: Vec<u8> = Vec::new();
    if kind == 124 {
        r.push(0);
        r.push(1);
    } else if kind == 45 {
        r.push(2);
        r.push(3);
    } else if kind == 76 {
        r.push(0);
        r.push(2);
    } else if kind == 74 {
        r.push(0);
        r.push(3);
    } else if kind == 55 {
        r.push(1);
        r.push(3);
    } else if kind == 70 {
        r.push(1);
        r.push(2);
    } else if kind == 83 {
        r.push(0);
        r.push(1);
        r.push(2);
        r.push(3);
    }
    r
}

/// The unlabelled neighbours the cell at `(x, y)` connects to.
#[verifier::loop_isolation(false)]
fn connecting_exec(f: &Vec<u8>, w: usize, depths: &Vec<i64>, x: i64, y: i64) -> (r: Vec<(i64, i64)>)
    requires
        f@.len() <= 0x1000_0000_0000_0000,
        0 < w <= DIM_MAX,
        depths@.len() == f@.len(),
        -2 <= x <= 0x1000_0000_0000_0001,
        -2 <= y <= 0x1000_0000_0000_0001,
    ensures
        pairs_i64(r@) == connecting(f@, w as int, crate::text::ints_of(depths@), x as int, y as int),
        fresh_frontier(f@, w as int, crate::text::ints_of(depths@), pairs_i64(r@)),
{
    let ghost dv = crate::text::ints_of(depths@);
    let kind = pipe_at(f, w, x, y);
    let ds = dirs_of(kind);
    let mut r: Vec<(i64, i64)> = Vec::new();
    let mut j: usize = 0;
    proof {
        assert(pairs_i64(r@) + conn_from(f@, w as int, dv, x as int, y as int, 0) =~= conn_from(
            f@,
            w as int,
            dv,
            x as int,
            y as int,
            0,
        ));
    }
    while j < ds.len()
        invariant
            0 <= j <= ds@.len(),
            ds@.len() == conn_dirs(kind).len(),
            kind == at_spec(f@, w as int, x as int, y as int),
            forall|t: int| 0 <= t < ds@.len() ==> #[trigger] ds@[t] as int == conn_dirs(kind)[t],
            forall|t: int| 0 <= t < ds@.len() ==> #[trigger] ds@[t] <= 3,
            connecting(f@, w as int, dv, x as int, y as int) == pairs_i64(r@) + conn_from(
                f@,
                w as int,
                dv,
                x as int,
                y as int,
                j as int,
            ),
            fresh_frontier(f@, w as int, dv, pairs_i64(r@)),
        decreases ds@.len() - j,
    {
        let d = ds[j];
        let (dx, dy): (i64, i64) = if d == 0 {
            (0, -1)
        } else if d == 1 {
            (0, 1)
        } else if d == 2 {
            (1, 0)
        } else {
            (-1, 0)
        };
        let nx = x + dx;
        let ny = y + dy;
        proof {
            assert((dx as int, dy as int) == delta(d as int));
        }
        let nk = pipe_at(f, w, nx, ny);
        let rd: u8 = if d == 0 {
            1
        } else if d == 1 {
            0
        } else if d == 2 {
            3
        } else {
            2
        };
        proof {
            assert(rd as int == rev_dir(d as int));
        }
        let back = opens_exec(nk, rd);
        let fwd = opens_exec(kind, d);
        // is the neighbour unlabelled?
        let nd = cell_depth(f, w, depths, nx, ny);
        let unseen = nd < 0;
        proof {
            assert(unseen == !seen(f@, w as int, dv, nx as int, ny as int));
            lemma_opens_conn_dirs(kind, d as int);
            lemma_opens_conn_dirs(nk, rd as int);
            assert((fwd && back) == can_connect(f@, w as int, x as int, y as int, d as int));
        }
        let keep = unseen && fwd && back;
        if keep {
            let ghost pre = pairs_i64(r@);
            r.push((nx, ny));
            proof {
                assert(pairs_i64(r@) =~= pre.push((nx as int, ny as int)));
                assert(can_connect(f@, w as int, x as int, y as int, d as int));
                assert(has_dir(at_spec(f@, w as int, nx as int, ny as int), rev_dir(d as int)));
                assert(at_spec(f@, w as int, nx as int, ny as int) != 46) by {
                    assert(conn_dirs(46) =~= Seq::<int>::empty());
                }
                assert(idx_of(f@, w as int, nx as int, ny as int) >= 0);
            }
        }
        proof {
            assert(conn_from(f@, w as int, dv, x as int, y as int, j as int) == (if keep {
                seq![(nx as int, ny as int)]
            } else {
                Seq::<(int, int)>::empty()
            }) + conn_from(f@, w as int, dv, x as int, y as int, j + 1));
            assert(connecting(f@, w as int, dv, x as int, y as int) =~= pairs_i64(r@) + conn_from(
                f@,
                w as int,
                dv,
                x as int,
                y as int,
                j + 1,
            ));
        }
        j = j + 1;
    }
    proof {
        assert(conn_from(f@, w as int, dv, x as int, y as int, ds@.len() as int) =~= Seq::<(
            int,
            int,
        )>::empty());
        assert(pairs_i64(r@) =~= connecting(f@, w as int, dv, x as int, y as int));
    }
    r
}

/// Is the loop cell at `(x, y)` connected towards `d`: it is
/// labelled, opens that way, and its labelled neighbour opens back.
pub open spec fn conn_live(f: Seq<u8>, w: int, depths: Seq<int>, x: int, y: int, d: int) -> bool {
    let (dx, dy) = delta(d);
    &&& seen(f, w, depths, x, y)
    &&& seen(f, w, depths, x + dx, y + dy)
    &&& can_connect(f, w, x, y, d)
}

/// The enclosed cells of row `y` from column `x` on: crossing both a
/// north and a south connection flips the inside flag, and unlabelled
/// cells count while inside.
pub open spec fn row_scan(f: Seq<u8>, w: int, depths: Seq<int>, y: int, x: int, cn: bool, cs: bool, inside: bool) -> int
    decreases w - x,
{
    if x >= w {
        0
    } else {
        let flip = cn && cs;
        let cn1 = if flip { false } else { cn };
        let cs1 = if flip { false } else { cs };
        let ins1 = if flip { !inside } else { inside };
        if seen(f, w, depths, x, y) {
            row_scan(
                f,
                w,
                depths,
                y,
                x + 1,
                cn1 != conn_live(f, w, depths, x, y, 0),
                cs1 != conn_live(f, w, depths, x, y, 1),
                ins1,
            )
        } else {
            (if ins1 {
                1int
            } else {
                0int
            }) + row_scan(f, w, depths, y, x + 1, false, false, ins1)
        }
    }
}

/// The enclosed cells of the rows `y` up to `h`.
pub open spec fn rows_scan(f: Seq<u8>, w: int, depths: Seq<int>, y: int, h: int) -> int
    decreases h - y,
{
    if y >= h {
        0
    } else {
        row_scan(f, w, depths, y, 0, false, false, false) + rows_scan(f, w, depths, y + 1, h)
    }
}

/// The part-two answer: the enclosed cells of the labelled maze.
pub open spec fn enclosed_spec(lv: Seq<Seq<u8>>) -> int {
    let f = flat_of(lv);
    let w = width_of(lv);
    rows_scan(f, w, final_depths(f, w), 0, (f.len() as int) / w)
}

proof fn lemma_row_scan_nonneg(f: Seq<u8>, w: int, depths: Seq<int>, y: int, x: int, cn: bool, cs: bool, inside: bool)
    ensures
        0 <= row_scan(f, w, depths, y, x, cn, cs, inside) <= (if w - x >= 0 {
            w - x
        } else {
            0int
        }),
    decreases w - x,
{
    if x < w {
        let flip = cn && cs;
        let cn1 = if flip { false } else { cn };
        let cs1 = if flip { false } else { cs };
        let ins1 = if flip { !inside } else { inside };
        if seen(f, w, depths, x, y) {
            lemma_row_scan_nonneg(
                f,
                w,
                depths,
                y,
                x + 1,
                cn1 != conn_live(f, w, depths, x, y, 0),
                cs1 != conn_live(f, w, depths, x, y, 1),
                ins1,
            );
        } else {
            lemma_row_scan_nonneg(f, w, depths, y, x + 1, false, false, ins1);
        }
    }
}

proof fn lemma_rows_scan_nonneg(f: Seq<u8>, w: int, depths: Seq<int>, y: int, h: int)
    requires
        w >= 0,
    ensures
        0 <= rows_scan(f, w, depths, y, h) <= (if h - y >= 0 { (h - y) * w } else { 0 }),
    decreases h - y,
{
    if y < h {
        lemma_row_scan_nonneg(f, w, depths, y, 0, false, false, false);
        lemma_rows_scan_nonneg(f, w, depths, y + 1, h);
        assert((h - y) * w == (h - y - 1) * w + w) by (nonlinear_arith);
    }
}

/// Is the labelled cell at `(x, y)` connected towards `d`?
fn conn_live_exec(f: &Vec<u8>, w: usize, depths: &Vec<i64>, x: i64, y: i64, d: u8) -> (b: bool)
    requires
        f@.len() <= 0x1000_0000_0000_0000,
        0 < w <= DIM_MAX,
        depths@.len() == f@.len(),
        -2 <= x <= 0x1000_0000_0000_0001,
        -2 <= y <= 0x1000_0000_0000_0001,
        d <= 3,
    ensures
        b == conn_live(f@, w as int, crate::text::ints_of(depths@), x as int, y as int, d as int),
{
    let here = cell_depth(f, w, depths, x, y);
    if here < 0 {
        return false;
    }
    let (dx, dy): (i64, i64) = if d == 0 {
        (0, -1)
    } else if d == 1 {
        (0, 1)
    } else if d == 2 {
        (1, 0)
    } else {
        (-1, 0)
    };
    proof {
        assert((dx as int, dy as int) == delta(d as int));
    }
    let nx = x + dx;
    let ny = y + dy;
    let there = cell_depth(f, w, depths, nx, ny);
    if there < 0 {
        return false;
    }
    let k1 = pipe_at(f, w, x, y);
    let k2 = pipe_at(f, w, nx, ny);
    let rd: u8 = if d == 0 {
        1
    } else if d == 1 {
        0
    } else if d == 2 {
        3
    } else {
        2
    };
    proof {
        assert(rd as int == rev_dir(d as int));
        lemma_opens_conn_dirs(k1, d as int);
        lemma_opens_conn_dirs(k2, rd as int);
    }
    opens_exec(k1, d) && opens_exec(k2, rd)
}

/// The farthest distance along the loop from the start.
///
/// Returns it exactly when the input is a well-formed maze, and
/// `None` otherwise.
pub fn solve_part1(lines: &Vec<Vec<u8>>) -> (r: Option<u64>)
    ensures
        match r {
            Some(v) => maze_ok(views_of(lines@)) && v == max_depth(
                final_depths(flat_of(views_of(lines@)), width_of(views_of(lines@))),
            ),
            None => !maze_ok(views_of(lines@)),
        },
{
    let mut maze = match PipeMaze::from(lines) {
        None => {
            return None;
        },
        Some(m) => m,
    };
    let r = maze.traverse();
    Some(r)
}

/// The number of cells enclosed by the loop.
///
/// Returns it exactly when the input is a well-formed maze, and
/// `None` otherwise.
#[verifier::loop_isolation(false)]
pub fn solve_part2(lines: &Vec<Vec<u8>>) -> (r: Option<u64>)
    ensures
        match r {
            Some(v) => maze_ok(views_of(lines@)) && v == enclosed_spec(views_of(lines@)),
            None => !maze_ok(views_of(lines@)),
        },
{
    let ghost lv = views_of(lines@);
    let mut maze = match PipeMaze::from(lines) {
        None => {
            return None;
        },
        Some(m) => m,
    };
    let ghost f = maze.kinds@;
    let ghost w = maze.width as int;
    maze.traverse();
    let ghost dv = crate::text::ints_of(maze.depths@);
    proof {
        assert(dv == final_depths(f, w));
    }
    let h2 = maze.kinds.len() / maze.width;
    let ghost hh = h2 as int;
    proof {
        lemma_rows_scan_nonneg(f, w, dv, 0, hh);
    }
    let mut count: u64 = 0;
    let mut y: i64 = 0;
    proof {
        assert(hh <= f.len()) by {
            vstd::arithmetic::div_mod::lemma_div_nonincreasing(f.len() as int, w);
        }
    }
    while y < h2 as i64
        invariant
            0 <= y <= hh,
            maze.wf(),
            maze.kinds@ == f,
            maze.width as int == w,
            dv == crate::text::ints_of(maze.depths@),
            count + row_scan(f, w, dv, y as int, 0, false, false, false) * 0 + rows_scan(
                f,
                w,
                dv,
                y as int,
                hh,
            ) == rows_scan(f, w, dv, 0, hh),
            count <= 0x1000_0000_0000_0000,
            enclosed_spec(lv) == rows_scan(f, w, dv, 0, hh),
        decreases hh - y,
    {
        let mut x: i64 = 0;
        let mut cn: bool = false;
        let mut cs: bool = false;
        let mut inside: bool = false;
        proof {
            lemma_rows_scan_nonneg(f, w, dv, y as int + 1, hh);
            lemma_row_scan_nonneg(f, w, dv, y as int, 0, false, false, false);
        }
        while x < maze.width as i64
            invariant
                0 <= x <= w,
                0 <= y < hh,
                maze.wf(),
                maze.kinds@ == f,
                maze.width as int == w,
                dv == crate::text::ints_of(maze.depths@),
                count + row_scan(f, w, dv, y as int, x as int, cn, cs, inside) + rows_scan(
                    f,
                    w,
                    dv,
                    y as int + 1,
                    hh,
                ) == rows_scan(f, w, dv, 0, hh),
                count + row_scan(f, w, dv, y as int, x as int, cn, cs, inside) <= rows_scan(
                    f,
                    w,
                    dv,
                    0,
                    hh,
                ) - rows_scan(f, w, dv, y as int + 1, hh),
                count <= 0x1000_0000_0000_0000,
            decreases w - x,
        {
            proof {
                lemma_rows_scan_nonneg(f, w, dv, y as int + 1, hh);
                lemma_rows_scan_nonneg(f, w, dv, 0, hh);
            }
            if cn && cs {
                inside = !inside;
                cn = false;
                cs = false;
            }
            let here = cell_depth(&maze.kinds, maze.width, &maze.depths, x, y);
            if here >= 0 {
                let ln = conn_live_exec(&maze.kinds, maze.width, &maze.depths, x, y, 0);
                let ls = conn_live_exec(&maze.kinds, maze.width, &maze.depths, x, y, 1);
                cn = cn != ln;
                cs = cs != ls;
            } else {
                cn = false;
                cs = false;
                if inside {
                    proof {
                        lemma_rows_scan_bound(f, w, dv, hh);
                        lemma_row_scan_nonneg(f, w, dv, y as int, x as int + 1, false, false, inside);
                    }
                    count = count + 1;
                } else {
                    proof {
                        lemma_row_scan_nonneg(f, w, dv, y as int, x as int + 1, false, false, inside);
                    }
                }
            }
            x = x + 1;
        }
        y = y + 1;
    }
    proof {
        assert(rows_scan(f, w, dv, hh, hh) == 0);
    }
    Some(count)
}

/// The whole scan stays within the grid size.
proof fn lemma_rows_scan_bound(f: Seq<u8>, w: int, depths: Seq<int>, h: int)
    requires
        0 < w,
        h == f.len() as int / w,
        f.len() <= 0x1000_0000_0000_0000,
    ensures
        rows_scan(f, w, depths, 0, h) <= 0x1000_0000_0000_0000,
{
    vstd::arithmetic::div_mod::lemma_fundamental_div_mod(f.len() as int, w);
    vstd::arithmetic::div_mod::lemma_div_pos_is_pos(f.len() as int, w);
    lemma_rows_scan_nonneg(f, w, depths, 0, h);
    assert(h * w <= f.len()) by (nonlinear_arith)
        requires
            f.len() as int == w * h + (f.len() as int) % w,
            0 <= (f.len() as int) % w,
    ;
}

} // verus!
