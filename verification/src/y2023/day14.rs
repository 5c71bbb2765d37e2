//! Parabolic platform: round rocks `O` roll north when the platform
//! tilts; cube rocks `#` stay put.  Part one tilts once and weighs the
//! north beams.  Part two runs a billion spin cycles (tilt north, west,
//! south, east), detecting when the rock pattern repeats and fast
//! forwarding over the loop.

use vstd::prelude::*;
use crate::grid::{flat_of, flatten, rect, width_of, lemma_flat_len};
use crate::text::views_of;

verus! {

/// Largest accepted grid dimension.
pub const DIM_MAX: usize = 0x10_0000;

/// The spin cycles part two runs.
pub const CYCLES: u64 = 1_000_000_000;

/// Where the rock at `(x, y)` rolls: the lowest row reachable through
/// empty cells straight up.
pub open spec fn roll_dest(m: Seq<u8>, w: int, x: int, y: int) -> int
    decreases y,
{
    if y <= 0 || m[x + (y - 1) * w] != 46 {
        y
    } else {
        roll_dest(m, w, x, y - 1)
    }
}

/// The map after the rock at `(x, y)` (if any) has rolled north.
pub open spec fn roll_one(m: Seq<u8>, w: int, x: int, y: int) -> Seq<u8> {
    if 0 <= x + y * w < m.len() && m[x + y * w] == 79 {
        let d = roll_dest(m, w, x, y);
        if d == y {
            m
        } else {
            m.update(x + y * w, 46).update(x + d * w, 79)
        }
    } else {
        m
    }
}

/// The map after the whole tilt, processing columns left to right and
/// each column top to bottom, from cell `(x, y)` on.
pub open spec fn tilt_from(m: Seq<u8>, w: int, h: int, x: int, y: int) -> Seq<u8>
    decreases w - x, h - y,
{
    if x < 0 || y < 0 || x >= w {
        m
    } else if y >= h {
        tilt_from(m, w, h, x + 1, 0)
    } else {
        tilt_from(roll_one(m, w, x, y), w, h, x, y + 1)
    }
}

pub open spec fn tilt_spec(m: Seq<u8>, w: int, h: int) -> Seq<u8> {
    tilt_from(m, w, h, 0, 0)
}

/// The map rotated a quarter turn clockwise; the new width is `h`.
pub open spec fn rotate_spec(m: Seq<u8>, w: int, h: int) -> Seq<u8> {
    Seq::new(m.len(), |k: int| m[(k / h) + (h - 1 - (k % h)) * w])
}

/// One spin cycle: four tilts, each followed by a quarter turn, the
/// dimensions swapping twice on the way.
pub open spec fn spin_spec(m: Seq<u8>, w: int, h: int) -> Seq<u8> {
    let a = rotate_spec(tilt_spec(m, w, h), w, h);
    let b = rotate_spec(tilt_spec(a, h, w), h, w);
    let c = rotate_spec(tilt_spec(b, w, h), w, h);
    rotate_spec(tilt_spec(c, h, w), h, w)
}

/// The map after `n` spin cycles.
pub open spec fn iter_spin(m: Seq<u8>, w: int, h: int, n: int) -> Seq<u8>
    decreases n,
{
    if n <= 0 {
        m
    } else {
        spin_spec(iter_spin(m, w, h, n - 1), w, h)
    }
}

/// The load on the north beams: each round rock counts the number of
/// rows from it to the south edge, summed from row `y` down.
pub open spec fn weigh_row(m: Seq<u8>, w: int, h: int, y: int, x: int) -> int
    decreases w - x,
{
    if x < 0 || x >= w {
        0
    } else {
        (if 0 <= x + y * w < m.len() && m[x + y * w] == 79 {
            h - y
        } else {
            0int
        }) + weigh_row(m, w, h, y, x + 1)
    }
}

pub open spec fn weigh_from(m: Seq<u8>, w: int, h: int, y: int) -> int
    decreases h - y,
{
    if y < 0 || y >= h {
        0
    } else {
        weigh_row(m, w, h, y, 0) + weigh_from(m, w, h, y + 1)
    }
}

pub open spec fn weigh_spec(m: Seq<u8>, w: int, h: int) -> int {
    weigh_from(m, w, h, 0)
}

/// A platform input is well formed: rectangular, nonempty, inside the
/// accepted dimensions.
pub open spec fn platform_ok(lv: Seq<Seq<u8>>) -> bool {
    &&& rect(lv)
    &&& 1 <= lv.len() <= DIM_MAX
    &&& 1 <= width_of(lv) <= DIM_MAX
}

/// Splitting a spin run: more cycles extend the run.
pub proof fn lemma_iter_spin_add(m: Seq<u8>, w: int, h: int, a: int, b: int)
    requires
        a >= 0,
        b >= 0,
    ensures
        iter_spin(m, w, h, a + b) == iter_spin(iter_spin(m, w, h, a), w, h, b),
    decreases b,
{
    if b > 0 {
        lemma_iter_spin_add(m, w, h, a, b - 1);
    }
}

/// Once the pattern repeats with period `t`, every later cycle count
/// can be reduced modulo the period.
pub proof fn lemma_iter_spin_period(m: Seq<u8>, w: int, h: int, p: int, t: int, n: int)
    requires
        0 <= p,
        1 <= t,
        iter_spin(m, w, h, p + t) == iter_spin(m, w, h, p),
        n >= p,
    ensures
        iter_spin(m, w, h, n) == iter_spin(m, w, h, p + ((n - p) % t)),
    decreases n,
{
    if n < p + t {
        assert((n - p) % t == n - p) by {
            vstd::arithmetic::div_mod::lemma_small_mod((n - p) as nat, t as nat);
        }
    } else {
        assert(iter_spin(m, w, h, n) == iter_spin(m, w, h, n - t)) by {
            lemma_iter_spin_add(m, w, h, p + t, n - p - t);
            lemma_iter_spin_add(m, w, h, p, n - p - t);
        }
        lemma_iter_spin_period(m, w, h, p, t, n - t);
        assert((n - t - p) % t == (n - p) % t) by {
            vstd::arithmetic::div_mod::lemma_mod_add_multiples_vanish((n - t - p) as int, t);
        }
    }
}

/// Cell `(x, y)` lies inside a `w` by `h` grid of `len` cells.
proof fn lemma_cell_in(w: int, h: int, x: int, y: int, len: int)
    requires
        0 <= x < w,
        0 <= y < h,
        len == h * w,
    ensures
        0 <= x + y * w < len,
        0 <= y * w,
{
    assert(0 <= y * w && x + y * w < h * w) by (nonlinear_arith)
        requires
            0 <= x < w,
            0 <= y < h,
    ;
}

/// The platform: its rocks flattened row by row.
pub struct Platform {
    pub map: Vec<u8>,
    pub width: usize,
    pub height: usize,
}

impl Platform {
    pub open spec fn wf(&self) -> bool {
        &&& 1 <= self.width <= DIM_MAX
        &&& 1 <= self.height <= DIM_MAX
        &&& self.map@.len() == self.height * self.width
    }

    /// Reads the platform from the input lines.
    ///
    /// Returns it exactly when the input is rectangular, nonempty and
    /// inside the accepted dimensions; `None` otherwise.
    #[verifier::loop_isolation(false)]
    pub fn from(lines: &Vec<Vec<u8>>) -> (r: Option<Platform>)
        ensures
            match r {
                Some(p) => {
                    &&& platform_ok(views_of(lines@))
                    &&& p.wf()
                    &&& p.map@ == flat_of(views_of(lines@))
                    &&& p.width as int == width_of(views_of(lines@))
                    &&& p.height == lines@.len()
                },
                None => !platform_ok(views_of(lines@)),
            },
    {
        let ghost lv = views_of(lines@);
        if lines.len() == 0 || lines.len() > DIM_MAX {
            return None;
        }
        let f = match flatten(lines) {
            None => {
                return None;
            },
            Some(f) => f,
        };
        let w = lines[0].len();
        proof {
            assert(lv[0] == lines@[0]@);
            assert(width_of(lv) == w as int);
            lemma_flat_len(lv);
        }
        if w == 0 || w > DIM_MAX {
            return None;
        }
        Some(Platform { map: f, width: w, height: lines.len() })
    }

    /// Tilts the platform north: every round rock rolls up as far as
    /// the empty cells let it.
    #[verifier::loop_isolation(false)]
    pub fn tilt(&mut self)
        requires
            old(self).wf(),
        ensures
            final(self).wf(),
            final(self).width == old(self).width,
            final(self).height == old(self).height,
            final(self).map@ == tilt_spec(
                old(self).map@,
                old(self).width as int,
                old(self).height as int,
            ),
    {
        let ghost m0 = self.map@;
        let ghost w = self.width as int;
        let ghost h = self.height as int;
        let n = self.map.len();
        proof {
            assert(n == self.map@.len());
        }
        let mut x: usize = 0;
        while x < self.width
            invariant
                0 <= x <= self.width,
                self.wf(),
                self.width == old(self).width,
                self.height == old(self).height,
                tilt_spec(m0, w, h) == tilt_from(self.map@, w, h, x as int, 0),
            decreases self.width - x,
        {
            let mut y: usize = 0;
            while y < self.height
                invariant
                    0 <= y <= self.height,
                    x < self.width,
                    self.wf(),
                    self.width == old(self).width,
                    self.height == old(self).height,
                    n == self.map@.len(),
                    tilt_spec(m0, w, h) == tilt_from(self.map@, w, h, x as int, y as int),
                decreases self.height - y,
            {
                proof {
                    lemma_cell_in(w, h, x as int, y as int, self.map@.len() as int);
                }
                let ghost mc = self.map@;
                let idx = x + y * self.width;
                if self.map[idx] == 79 {
                    // roll it up to the lowest reachable row
                    let mut r: usize = y;
                    let mut stop = false;
                    while r > 0 && !stop
                        invariant
                            0 <= r <= y,
                            x < self.width,
                            y < self.height,
                            self.map@ == mc,
                            self.wf(),
                            n == self.map@.len(),
                            roll_dest(mc, w, x as int, y as int) == roll_dest(
                                mc,
                                w,
                                x as int,
                                r as int,
                            ),
                            stop ==> roll_dest(mc, w, x as int, r as int) == r,
                        decreases r + (if stop { 0int } else { 1int }),
                    {
                        proof {
                            lemma_cell_in(w, h, x as int, r - 1, n as int);
                        }
                        if self.map[x + (r - 1) * self.width] == 46 {
                            r = r - 1;
                        } else {
                            stop = true;
                        }
                    }
                    proof {
                        assert(roll_dest(mc, w, x as int, r as int) == r);
                    }
                    if r != y {
                        proof {
                            lemma_cell_in(w, h, x as int, r as int, self.map@.len() as int);
                        }
                        self.map.set(idx, 46);
                        let idx2 = x + r * self.width;
                        self.map.set(idx2, 79);
                        proof {
                            assert(self.map@ =~= roll_one(mc, w, x as int, y as int));
                        }
                    } else {
                        proof {
                            assert(self.map@ == roll_one(mc, w, x as int, y as int));
                        }
                    }
                } else {
                    proof {
                        assert(self.map@ == roll_one(mc, w, x as int, y as int));
                    }
                }
                y = y + 1;
            }
            x = x + 1;
        }
        proof {
            assert(tilt_from(self.map@, w, h, w, 0) == self.map@);
        }
    }

    /// Rotates the platform a quarter turn clockwise, swapping its
    /// dimensions.
    #[verifier::loop_isolation(false)]
    pub fn rotate(&mut self)
        requires
            old(self).wf(),
        ensures
            final(self).wf(),
            final(self).width == old(self).height,
            final(self).height == old(self).width,
            final(self).map@ == rotate_spec(
                old(self).map@,
                old(self).width as int,
                old(self).height as int,
            ),
    {
        let ghost m0 = self.map@;
        let ghost w = self.width as int;
        let ghost h = self.height as int;
        let n = self.map.len();
        let mut out: Vec<u8> = Vec::new();
        let mut k: usize = 0;
        while k < n
            invariant
                0 <= k <= n,
                n == m0.len(),
                m0 == self.map@,
                self.wf(),
                self.width as int == w,
                self.height as int == h,
                out@.len() == k,
                forall|t: int|
                    0 <= t < k ==> #[trigger] out@[t] == rotate_spec(m0, w, h)[t],
            decreases n - k,
        {
            let a = k % self.height;
            let b = k / self.height;
            proof {
                vstd::arithmetic::div_mod::lemma_mod_bound(k as int, h);
                vstd::arithmetic::div_mod::lemma_fundamental_div_mod(k as int, h);
                vstd::arithmetic::div_mod::lemma_div_pos_is_pos(k as int, h);
                assert((k as int) / h < w) by (nonlinear_arith)
                    requires
                        (k as int) == h * ((k as int) / h) + (k as int) % h,
                        0 <= (k as int) % h,
                        (k as int) < h * w,
                        h >= 1,
                        (k as int) / h >= 0,
                ;
                lemma_cell_in(w, h, b as int, h - 1 - a, m0.len() as int);
            }
            let src = b + (self.height - 1 - a) * self.width;
            out.push(self.map[src]);
            k = k + 1;
        }
        proof {
            assert(out@ =~= rotate_spec(m0, w, h));
        }
        self.map = out;
        let t = self.width;
        self.width = self.height;
        self.height = t;
        proof {
            assert(self.map@.len() == self.height * self.width) by (nonlinear_arith)
                requires
                    self.map@.len() == h * w,
                    self.width as int == h,
                    self.height as int == w,
            ;
        }
    }

    /// One spin cycle: tilt then rotate, four times over.
    pub fn spin_cycle(&mut self)
        requires
            old(self).wf(),
        ensures
            final(self).wf(),
            final(self).width == old(self).width,
            final(self).height == old(self).height,
            final(self).map@ == spin_spec(
                old(self).map@,
                old(self).width as int,
                old(self).height as int,
            ),
    {
        self.tilt();
        self.rotate();
        self.tilt();
        self.rotate();
        self.tilt();
        self.rotate();
        self.tilt();
        self.rotate();
    }

    /// The load on the north support beams.
    #[verifier::loop_isolation(false)]
    pub fn weigh(&self) -> (r: u64)
        requires
            self.wf(),
        ensures
            r == weigh_spec(self.map@, self.width as int, self.height as int),
    {
        let ghost m = self.map@;
        let ghost w = self.width as int;
        let ghost h = self.height as int;
        let n = self.map.len();
        proof {
            assert(n == self.map@.len());
            lemma_weigh_from_bound(m, w, h, 0);
        }
        let mut acc: u64 = 0;
        let mut y: usize = 0;
        while y < self.height
            invariant
                0 <= y <= self.height,
                self.wf(),
                m == self.map@,
                w == self.width as int,
                h == self.height as int,
                weigh_spec(m, w, h) == acc + weigh_from(m, w, h, y as int),
                acc + weigh_from(m, w, h, y as int) <= 0x1000_0000_0000_0000,
                acc >= 0,
            decreases self.height - y,
        {
            proof {
                lemma_weigh_from_bound(m, w, h, y as int);
                lemma_weigh_from_bound(m, w, h, y as int + 1);
                lemma_weigh_row_bound(m, w, h, y as int, 0);
            }
            let mut x: usize = 0;
            while x < self.width
                invariant
                    0 <= x <= self.width,
                    y < self.height,
                    self.wf(),
                    m == self.map@,
                    w == self.width as int,
                    h == self.height as int,
                    weigh_spec(m, w, h) == acc + weigh_row(m, w, h, y as int, x as int)
                        + weigh_from(m, w, h, y as int + 1),
                    acc + weigh_row(m, w, h, y as int, x as int) + weigh_from(
                        m,
                        w,
                        h,
                        y as int + 1,
                    ) <= 0x1000_0000_0000_0000,
                    weigh_from(m, w, h, y as int + 1) >= 0,
                    acc >= 0,
                decreases self.width - x,
            {
                proof {
                    lemma_cell_in(w, h, x as int, y as int, m.len() as int);
                    lemma_weigh_row_bound(m, w, h, y as int, x as int + 1);
                }
                let idx = x + y * self.width;
                if self.map[idx] == 79 {
                    acc = acc + (self.height - y) as u64;
                }
                x = x + 1;
            }
            y = y + 1;
        }
        proof {
            assert(weigh_from(m, w, h, h) == 0);
        }
        acc
    }
}

/// Row loads are nonnegative and bounded by the row size.
proof fn lemma_weigh_row_bound(m: Seq<u8>, w: int, h: int, y: int, x: int)
    requires
        0 <= h <= DIM_MAX,
        0 <= y < h,
    ensures
        0 <= weigh_row(m, w, h, y, x) <= (if w - x >= 0 {
            (w - x) * h
        } else {
            0int
        }),
    decreases w - x,
{
    if 0 <= x < w {
        lemma_weigh_row_bound(m, w, h, y, x + 1);
        assert((w - x) * h == (w - x - 1) * h + h) by (nonlinear_arith);
    }
}

/// The whole load stays far inside `u64`.
proof fn lemma_weigh_from_bound(m: Seq<u8>, w: int, h: int, y: int)
    requires
        0 <= w <= DIM_MAX,
        0 <= h <= DIM_MAX,
        0 <= y,
    ensures
        0 <= weigh_from(m, w, h, y) <= 0x1000_0000_0000_0000,
    decreases h - y,
{
    lemma_weigh_sum_bound(m, w, h, y);
}

proof fn lemma_weigh_sum_bound(m: Seq<u8>, w: int, h: int, y: int)
    requires
        0 <= w <= DIM_MAX,
        0 <= h <= DIM_MAX,
        0 <= y,
    ensures
        0 <= weigh_from(m, w, h, y) <= (if h - y >= 0 {
            (h - y) * (w * h)
        } else {
            0int
        }),
        (if h - y >= 0 {
            (h - y) * (w * h)
        } else {
            0int
        }) <= 0x1000_0000_0000_0000,
    decreases h - y,
{
    assert(0 <= (h - y) * (w * h) <= 0x1000_0000_0000_0000 || h - y < 0) by (nonlinear_arith)
        requires
            0 <= w <= DIM_MAX as int,
            0 <= h <= DIM_MAX as int,
            0 <= y,
    ;
    if 0 <= y < h {
        lemma_weigh_row_bound(m, w, h, y, 0);
        lemma_weigh_sum_bound(m, w, h, y + 1);
        assert((h - y) * (w * h) == (h - y - 1) * (w * h) + w * h) by (nonlinear_arith);
        assert(w * h >= (if w - 0 >= 0 { (w - 0) * h } else { 0int })) by (nonlinear_arith)
            requires
                w >= 0,
                h >= 0,
        ;
    }
}

/// Do two byte maps hold the same bytes?
fn bytes_eq(a: &Vec<u8>, b: &Vec<u8>) -> (r: bool)
    ensures
        r == (a@ == b@),
{
    if a.len() != b.len() {
        proof {
            assert(a@ != b@);
        }
        return false;
    }
    let mut i: usize = 0;
    while i < a.len()
        invariant
            0 <= i <= a@.len(),
            a@.len() == b@.len(),
            forall|t: int| 0 <= t < i ==> a@[t] == b@[t],
        decreases a@.len() - i,
    {
        if a[i] != b[i] {
            return false;
        }
        i = i + 1;
    }
    proof {
        assert(a@ =~= b@);
    }
    true
}

/// Tilts the platform north once and weighs the north beams.
///
/// Returns the load exactly when the input is a well-formed platform,
/// and `None` otherwise.
pub fn solve_part1(lines: &Vec<Vec<u8>>) -> (r: Option<u64>)
    ensures
        match r {
            Some(v) => platform_ok(views_of(lines@)) && v == weigh_spec(
                tilt_spec(
                    flat_of(views_of(lines@)),
                    width_of(views_of(lines@)),
                    lines@.len() as int,
                ),
                width_of(views_of(lines@)),
                lines@.len() as int,
            ),
            None => !platform_ok(views_of(lines@)),
        },
{
    let mut p = match Platform::from(lines) {
        None => {
            return None;
        },
        Some(p) => p,
    };
    p.tilt();
    Some(p.weigh())
}

/// Runs a billion spin cycles — fast forwarding once the rock pattern
/// repeats — and weighs the north beams.
///
/// Returns the load exactly when the input is a well-formed platform,
/// and `None` otherwise.
#[verifier::loop_isolation(false)]
pub fn solve_part2(lines: &Vec<Vec<u8>>) -> (r: Option<u64>)
    ensures
        match r {
            Some(v) => platform_ok(views_of(lines@)) && v == weigh_spec(
                iter_spin(
                    flat_of(views_of(lines@)),
                    width_of(views_of(lines@)),
                    lines@.len() as int,
                    CYCLES as int,
                ),
                width_of(views_of(lines@)),
                lines@.len() as int,
            ),
            None => !platform_ok(views_of(lines@)),
        },
{
    let ghost lv = views_of(lines@);
    let mut p = match Platform::from(lines) {
        None => {
            return None;
        },
        Some(p) => p,
    };
    let ghost m0 = p.map@;
    let ghost w = p.width as int;
    let ghost h = p.height as int;
    let mut seen: Vec<(Vec<u8>, u64)> = Vec::new();
    let n0 = p.map.len();
    let snap = crate::text::subvec(&p.map, 0, n0);
    seen.push((snap, 0));
    proof {
        assert(seen@[0].0@ == iter_spin(m0, w, h, 0));
    }
    let mut it: u64 = 1;
    while it <= CYCLES
        invariant
            1 <= it <= CYCLES + 1,
            p.wf(),
            p.width as int == w,
            p.height as int == h,
            p.map@ == iter_spin(m0, w, h, it - 1),
            seen@.len() == it,
            forall|t: int|
                0 <= t < seen@.len() ==> (#[trigger] seen@[t]).0@ == iter_spin(m0, w, h, t)
                    && seen@[t].1 == t,
        decreases CYCLES + 1 - it,
    {
        p.spin_cycle();
        proof {
            assert(p.map@ == iter_spin(m0, w, h, it as int));
        }
        // has this pattern been seen before?
        let mut prev: u64 = 0;
        let mut found = false;
        let mut t: usize = 0;
        while t < seen.len()
            invariant
                0 <= t <= seen@.len(),
                seen@.len() == it,
                p.map@ == iter_spin(m0, w, h, it as int),
                found ==> prev < it && iter_spin(m0, w, h, prev as int) == iter_spin(
                    m0,
                    w,
                    h,
                    it as int,
                ),
                forall|t2: int|
                    0 <= t2 < seen@.len() ==> (#[trigger] seen@[t2]).0@ == iter_spin(m0, w, h, t2)
                        && seen@[t2].1 == t2,
            decreases seen@.len() - t,
        {
            if !found && bytes_eq(&seen[t].0, &p.map) {
                prev = seen[t].1;
                found = true;
                proof {
                    assert(seen@[t as int].0@ == iter_spin(m0, w, h, t as int));
                }
            }
            t = t + 1;
        }
        if found {
            // the pattern repeats: fast forward over whole loops
            let rep = it - prev;
            let rem = (CYCLES - it) % rep;
            proof {
                lemma_iter_spin_period(m0, w, h, prev as int, rep as int, CYCLES as int);
                lemma_iter_spin_period(m0, w, h, prev as int, rep as int, it as int + rem as int);
                vstd::arithmetic::div_mod::lemma_mod_add_multiples_vanish(rem as int, rep as int);
                vstd::arithmetic::div_mod::lemma_mod_add_multiples_vanish(
                    (CYCLES - it) as int,
                    rep as int,
                );
                vstd::arithmetic::div_mod::lemma_mod_bound((CYCLES - it) as int, rep as int);
                vstd::arithmetic::div_mod::lemma_small_mod(rem as nat, rep as nat);
                assert((it + rem - prev) % (rep as int) == rem as int);
                assert((CYCLES - prev) % (rep as int) == ((CYCLES - it) + rep) % (rep as int));
                assert((CYCLES - prev) % (rep as int) == rem as int);
                assert(iter_spin(m0, w, h, it as int + rem as int) == iter_spin(
                    m0,
                    w,
                    h,
                    CYCLES as int,
                ));
            }
            let mut k: u64 = 0;
            while k < rem
                invariant
                    0 <= k <= rem,
                    p.wf(),
                    p.width as int == w,
                    p.height as int == h,
                    p.map@ == iter_spin(m0, w, h, it as int + k as int),
                    iter_spin(m0, w, h, it as int + rem as int) == iter_spin(
                        m0,
                        w,
                        h,
                        CYCLES as int,
                    ),
                    it + rem <= u64::MAX,
                decreases rem - k,
            {
                p.spin_cycle();
                k = k + 1;
            }
            return Some(p.weigh());
        }
        let np = p.map.len();
        let snap2 = crate::text::subvec(&p.map, 0, np);
        seen.push((snap2, it));
        it = it + 1;
    }
    proof {
        assert(p.map@ == iter_spin(m0, w, h, CYCLES as int));
    }
    Some(p.weigh())
}

} // verus!
