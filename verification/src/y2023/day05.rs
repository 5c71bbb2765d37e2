//! Almanac range remapping: seeds pass through seven translation tables
//! (seed-to-soil through humidity-to-location); each table is a list of
//! `to from len` ranges shifting a value when it falls inside.  Part one
//! takes the least location over the listed seeds; part two reads the
//! seed list as (start, length) pairs and takes the least location over
//! every seed inside the ranges, walking only the range starts and the
//! tables' pulled-back breakpoints and checking that the pull-back
//! could lose none.

use vstd::prelude::*;
use crate::text::{
    colon_tokens, digits_val, has_colon, ints_of, nums_of, nums_ok, parse_nums, split_spec,
    space_pred, split_ws, tokens_after_colon, views_of,
};

verus! {

/// Largest value the almanac parser accepts, so that seven rounds of
/// shifting stay far inside `i64`.
pub const COORD_MAX: i64 = 0x100_0000_0000;

/// One remapping range of a translation table: values in
/// `start .. end` are shifted by `amount`.
#[derive(Clone, Copy, Debug)]
pub struct Offset {
    pub start: i64,
    pub end: i64,
    pub amount: i64,
}

/// Spec model of an `Offset`: `(start, end, amount)`.
pub open spec fn offset_model(o: Offset) -> (int, int, int) {
    (o.start as int, o.end as int, o.amount as int)
}

pub open spec fn offsets_model(os: Seq<Offset>) -> Seq<(int, int, int)> {
    Seq::new(os.len(), |i: int| offset_model(os[i]))
}

pub open spec fn stages_model(ss: Seq<Vec<Offset>>) -> Seq<Seq<(int, int, int)>> {
    Seq::new(ss.len(), |i: int| offsets_model(ss[i]@))
}

/// A remapping range read from the input is in the accepted window.
pub open spec fn offset_in_range(o: (int, int, int)) -> bool {
    &&& 0 <= o.0 <= COORD_MAX
    &&& 0 <= o.1 <= 2 * COORD_MAX
    &&& -COORD_MAX <= o.2 <= COORD_MAX
}

pub open spec fn stage_in_range(os: Seq<(int, int, int)>) -> bool {
    forall|i: int| 0 <= i < os.len() ==> offset_in_range(#[trigger] os[i])
}

pub open spec fn stages_in_range(ss: Seq<Seq<(int, int, int)>>) -> bool {
    forall|i: int| 0 <= i < ss.len() ==> stage_in_range(#[trigger] ss[i])
}

/// Applying one translation table: the first range containing `x`
/// shifts it; with no containing range `x` passes through unchanged.
pub open spec fn stage_apply(os: Seq<(int, int, int)>, x: int) -> int
    decreases os.len(),
{
    if os.len() == 0 {
        x
    } else if os[0].0 <= x < os[0].1 {
        x + os[0].2
    } else {
        stage_apply(os.drop_first(), x)
    }
}

/// A value's location: the tables applied in order.
pub open spec fn loc_through(ss: Seq<Seq<(int, int, int)>>, x: int) -> int
    decreases ss.len(),
{
    if ss.len() == 0 {
        x
    } else {
        loc_through(ss.drop_first(), stage_apply(ss[0], x))
    }
}

/// The collection of translation tables.
pub struct Translations {
    pub inner: Vec<Vec<Offset>>,
}

impl Translations {
    /// Seven tables, every range inside the accepted window.
    pub open spec fn wf(&self) -> bool {
        &&& self.inner@.len() == 7
        &&& stages_in_range(stages_model(self.inner@))
    }

    /// Runs `seed` through all seven tables in order.
    pub fn get_loc(&self, seed: i64) -> (r: i64)
        requires
            self.wf(),
            -0x4000_0000_0000 <= seed <= 0x4000_0000_0000,
        ensures
            r == loc_through(stages_model(self.inner@), seed as int),
    {
        let ghost ss = stages_model(self.inner@);
        let mut result: i64 = seed;
        let mut k: usize = 0;
        proof {
            assert(ss.skip(0) =~= ss);
        }
        while k < 7
            invariant
                0 <= k <= 7,
                self.wf(),
                ss == stages_model(self.inner@),
                loc_through(ss, seed as int) == loc_through(ss.skip(k as int), result as int),
                -0x4000_0000_0000 - k * COORD_MAX <= result <= 0x4000_0000_0000 + k * COORD_MAX,
            decreases 7 - k,
        {
            proof {
                assert(ss.skip(k as int)[0] == ss[k as int]);
                assert(ss.skip(k as int).drop_first() =~= ss.skip(k as int + 1));
            }
            result = apply_stage(&self.inner[k], result);
            k = k + 1;
        }
        proof {
            assert(ss.skip(7) =~= Seq::<Seq<(int, int, int)>>::empty());
        }
        result
    }
}

/// Applies one translation table to `x`: the first containing range
/// shifts it, otherwise `x` is returned unchanged.
fn apply_stage(os: &Vec<Offset>, x: i64) -> (r: i64)
    requires
        stage_in_range(offsets_model(os@)),
        -0x7000_0000_0000 <= x <= 0x7000_0000_0000,
    ensures
        r == stage_apply(offsets_model(os@), x as int),
        x - COORD_MAX <= r <= x + COORD_MAX,
{
    let ghost om = offsets_model(os@);
    let mut j: usize = 0;
    proof {
        assert(om.skip(0) =~= om);
    }
    while j < os.len()
        invariant
            0 <= j <= os@.len(),
            om == offsets_model(os@),
            stage_in_range(om),
            stage_apply(om, x as int) == stage_apply(om.skip(j as int), x as int),
            -0x7000_0000_0000 <= x <= 0x7000_0000_0000,
        decreases os@.len() - j,
    {
        proof {
            assert(om.skip(j as int)[0] == om[j as int]);
            assert(om.skip(j as int).drop_first() =~= om.skip(j as int + 1));
        }
        let o = &os[j];
        if o.start <= x && x < o.end {
            return x + o.amount;
        }
        j = j + 1;
    }
    proof {
        assert(om.skip(os@.len() as int) =~= Seq::<(int, int, int)>::empty());
    }
    x
}

/// A translation-table line holds exactly three numbers
/// `to from len`, each at most `COORD_MAX`.
pub open spec fn line_offset_ok(l: Seq<u8>) -> bool {
    let ts = split_spec(l, space_pred());
    &&& ts.len() == 3
    &&& nums_ok(ts)
    &&& digits_val(ts[0]) <= COORD_MAX
    &&& digits_val(ts[1]) <= COORD_MAX
    &&& digits_val(ts[2]) <= COORD_MAX
}

/// The remapping range denoted by a table line `to from len`:
/// values in `from .. from + len` are shifted by `to - from`.
pub open spec fn line_offset(l: Seq<u8>) -> (int, int, int) {
    let ns = nums_of(split_spec(l, space_pred()));
    (ns[1], ns[1] + ns[2], ns[0] - ns[1])
}

/// The first index at or after `j` holding an empty line, or the end.
pub open spec fn block_end(lines: Seq<Seq<u8>>, j: int) -> int
    decreases lines.len() - j,
{
    if j >= lines.len() || lines[j].len() == 0 {
        j
    } else {
        block_end(lines, j + 1)
    }
}

/// Every line of `lines[c..e]` is a well-formed table line.
pub open spec fn block_ok(lines: Seq<Seq<u8>>, c: int, e: int) -> bool {
    forall|t: int| c <= t < e ==> line_offset_ok(#[trigger] lines[t])
}

/// The remapping ranges denoted by the lines `lines[c..e]`.
pub open spec fn block_offsets(lines: Seq<Seq<u8>>, c: int, e: int) -> Seq<(int, int, int)> {
    Seq::new(if e >= c { (e - c) as nat } else { 0 }, |t: int| line_offset(lines[c + t]))
}

/// Start of the section whose header line sits at `i` (clamped to the
/// input's end): the header is skipped, content follows.
pub open spec fn sec_content(lines: Seq<Seq<u8>>, i: int) -> int {
    let i0 = if i <= lines.len() { i } else { lines.len() as int };
    if i0 + 1 <= lines.len() {
        i0 + 1
    } else {
        lines.len() as int
    }
}

/// The `k` translation tables read from `lines` starting at the header
/// line `i`: each section is one skipped header and then table lines up
/// to an empty line or the end of the input.
pub open spec fn stages_of(lines: Seq<Seq<u8>>, i: int, k: nat) -> Seq<Seq<(int, int, int)>>
    decreases k,
{
    if k == 0 {
        Seq::empty()
    } else {
        let c = sec_content(lines, i);
        let e = block_end(lines, c);
        seq![block_offsets(lines, c, e)] + stages_of(lines, e + 1, (k - 1) as nat)
    }
}

/// Every table line of the `k` sections starting at `i` is well formed.
pub open spec fn stages_ok(lines: Seq<Seq<u8>>, i: int, k: nat) -> bool
    decreases k,
{
    if k == 0 {
        true
    } else {
        let c = sec_content(lines, i);
        let e = block_end(lines, c);
        block_ok(lines, c, e) && stages_ok(lines, e + 1, (k - 1) as nat)
    }
}

/// When `lines[c..j]` are all nonempty and `j` is the end or an empty
/// line, `j` is where the block ends.
proof fn lemma_block_end_char(lines: Seq<Seq<u8>>, c: int, j: int)
    requires
        0 <= c <= j <= lines.len(),
        forall|t: int| c <= t < j ==> #[trigger] lines[t].len() > 0,
        j == lines.len() || lines[j].len() == 0,
    ensures
        block_end(lines, c) == j,
    decreases j - c,
{
    if c < j {
        lemma_block_end_char(lines, c + 1, j);
    }
}

/// The block never ends before where it starts.
proof fn lemma_block_end_ge(lines: Seq<Seq<u8>>, j: int)
    requires
        0 <= j,
    ensures
        block_end(lines, j) >= j,
    decreases lines.len() - j,
{
    if !(j >= lines.len() || lines[j].len() == 0) {
        lemma_block_end_ge(lines, j + 1);
    }
}

/// A nonempty line at `j` keeps the block going past `j`.
proof fn lemma_block_end_past(lines: Seq<Seq<u8>>, c: int, j: int)
    requires
        0 <= c <= j < lines.len(),
        forall|t: int| c <= t <= j ==> #[trigger] lines[t].len() > 0,
    ensures
        block_end(lines, c) > j,
    decreases j - c,
{
    if c < j {
        lemma_block_end_past(lines, c + 1, j);
    } else {
        lemma_block_end_ge(lines, c + 1);
    }
}

/// Reads one translation-table line.
///
/// Returns the range exactly when the line holds three numbers in the
/// accepted window, and `None` otherwise.
fn parse_offset_line(l: &Vec<u8>) -> (r: Option<Offset>)
    ensures
        match r {
            Some(o) => line_offset_ok(l@) && offset_model(o) == line_offset(l@) && offset_in_range(
                offset_model(o),
            ),
            None => !line_offset_ok(l@),
        },
{
    let ts = split_ws(l);
    let ghost tv = split_spec(l@, space_pred());
    if ts.len() != 3 {
        return None;
    }
    match parse_nums(&ts) {
        None => {
            assert(!nums_ok(tv));
            None
        },
        Some(ns) => {
            proof {
                assert(views_of(ts@)[0] == ts@[0]@);
                assert(views_of(ts@)[1] == ts@[1]@);
                assert(views_of(ts@)[2] == ts@[2]@);
            }
            let to = ns[0];
            let from = ns[1];
            let len = ns[2];
            if to > COORD_MAX as u64 || from > COORD_MAX as u64 || len > COORD_MAX as u64 {
                return None;
            }
            let o = Offset {
                start: from as i64,
                end: (from + len) as i64,
                amount: to as i64 - from as i64,
            };
            proof {
                assert(nums_of(tv)[0] == digits_val(tv[0]));
                assert(nums_of(tv)[1] == digits_val(tv[1]));
                assert(nums_of(tv)[2] == digits_val(tv[2]));
            }
            Some(o)
        },
    }
}

/// Reverse application of one table: a value produced by a range is
/// pulled back to its preimage; others pass through unchanged.
pub open spec fn rev_adjust(os: Seq<(int, int, int)>, x: int) -> int
    decreases os.len(),
{
    if os.len() == 0 {
        x
    } else if os[0].0 + os[0].2 <= x < os[0].1 + os[0].2 {
        x - os[0].2
    } else {
        rev_adjust(os.drop_first(), x)
    }
}

/// The boundary values of a table, each range contributing its start
/// and its end, in table order.
pub open spec fn stage_bounds(os: Seq<(int, int, int)>) -> Seq<int>
    decreases os.len(),
{
    if os.len() == 0 {
        Seq::empty()
    } else {
        seq![os[0].0, os[0].1] + stage_bounds(os.drop_first())
    }
}

/// The discontinuity candidates of the whole almanac: walking the
/// tables from the last to the first, existing candidates are pulled
/// back through each table and the table's own boundaries are added.
pub open spec fn discs_spec(ss: Seq<Seq<(int, int, int)>>) -> Seq<int>
    decreases ss.len(),
{
    if ss.len() == 0 {
        Seq::empty()
    } else {
        let rest = discs_spec(ss.drop_first());
        Seq::new(rest.len(), |i: int| rev_adjust(ss[0], rest[i])) + stage_bounds(ss[0])
    }
}

/// Pulls `x` back through one table, the reverse of `apply_stage`.
fn rev_apply(os: &Vec<Offset>, x: i64) -> (r: i64)
    requires
        stage_in_range(offsets_model(os@)),
        -0x7000_0000_0000 <= x <= 0x7000_0000_0000,
    ensures
        r == rev_adjust(offsets_model(os@), x as int),
        x - COORD_MAX <= r <= x + COORD_MAX,
{
    let ghost om = offsets_model(os@);
    let mut j: usize = 0;
    proof {
        assert(om.skip(0) =~= om);
    }
    while j < os.len()
        invariant
            0 <= j <= os@.len(),
            om == offsets_model(os@),
            stage_in_range(om),
            rev_adjust(om, x as int) == rev_adjust(om.skip(j as int), x as int),
            -0x7000_0000_0000 <= x <= 0x7000_0000_0000,
        decreases os@.len() - j,
    {
        proof {
            assert(om.skip(j as int)[0] == om[j as int]);
            assert(om.skip(j as int).drop_first() =~= om.skip(j as int + 1));
        }
        let o = &os[j];
        if o.start + o.amount <= x && x < o.end + o.amount {
            return x - o.amount;
        }
        j = j + 1;
    }
    proof {
        assert(om.skip(os@.len() as int) =~= Seq::<(int, int, int)>::empty());
    }
    x
}

/// How many of the table's shifted images hold `x`.
#[verifier::loop_isolation(false)]
fn count_shifted(os: &Vec<Offset>, x: i64) -> (n: u64)
    requires
        stage_in_range(offsets_model(os@)),
        -0x7000_0000_0000 <= x <= 0x7000_0000_0000,
    ensures
        n as int == shifted_matches(offsets_model(os@), x as int),
{
    let ghost om = offsets_model(os@);
    let mut n: u64 = 0;
    let mut j: usize = 0;
    proof {
        assert(om.skip(0) =~= om);
    }
    while j < os.len()
        invariant
            0 <= j <= os@.len(),
            om == offsets_model(os@),
            stage_in_range(om),
            shifted_matches(om, x as int) == n + shifted_matches(om.skip(j as int), x as int),
            n <= j,
        decreases os@.len() - j,
    {
        proof {
            assert(om.skip(j as int)[0] == om[j as int]);
            assert(om.skip(j as int).drop_first() =~= om.skip(j as int + 1));
        }
        let o = &os[j];
        if o.start + o.amount <= x && x < o.end + o.amount {
            n = n + 1;
        }
        j = j + 1;
    }
    proof {
        assert(om.skip(os@.len() as int) =~= Seq::<(int, int, int)>::empty());
    }
    n
}

/// Does some range of the table hold `x`?
#[verifier::loop_isolation(false)]
fn in_sources_exec(os: &Vec<Offset>, x: i64) -> (b: bool)
    ensures
        b == in_sources(offsets_model(os@), x as int),
{
    let ghost om = offsets_model(os@);
    let mut j: usize = 0;
    while j < os.len()
        invariant
            0 <= j <= os@.len(),
            om == offsets_model(os@),
            forall|t: int| 0 <= t < j ==> !((#[trigger] om[t]).0 <= x < om[t].1),
        decreases os@.len() - j,
    {
        let o = &os[j];
        if o.start <= x && x < o.end {
            proof {
                assert(om[j as int].0 <= x < om[j as int].1);
            }
            return true;
        }
        j = j + 1;
    }
    false
}

/// The parsed almanac: the seven translation tables and the
/// discontinuity candidates derived from them.
pub struct Almanac {
    pub translations: Translations,
    pub discontinuities: Vec<i64>,
    /// Whether the reverse pass could invert every candidate it
    /// carried, so the candidate list misses no breakpoint.
    pub complete: bool,
}

impl Almanac {
    pub open spec fn wf(&self) -> bool {
        &&& self.translations.wf()
        &&& forall|i: int|
            0 <= i < self.discontinuities@.len() ==> -9 * COORD_MAX <= #[trigger] self.discontinuities@[i]
                <= 9 * COORD_MAX
    }

    /// Reads the seven translation tables from `lines`, the first
    /// section's header line sitting at `start`, and derives the
    /// discontinuity candidates.
    ///
    /// Returns the almanac exactly when every table line of the seven
    /// sections is well formed, and `None` otherwise.
    #[verifier::loop_isolation(false)]
    pub fn from_lines(lines: &Vec<Vec<u8>>, start: usize) -> (r: Option<Almanac>)
        requires
            start <= lines@.len(),
        ensures
            match r {
                Some(a) => {
                    &&& stages_ok(views_of(lines@), start as int, 7)
                    &&& a.wf()
                    &&& stages_model(a.translations.inner@) == stages_of(
                        views_of(lines@),
                        start as int,
                        7,
                    )
                    &&& ints_of(a.discontinuities@) == discs_spec(
                        stages_of(views_of(lines@), start as int, 7),
                    )
                    &&& a.complete == pull_ok(stages_of(views_of(lines@), start as int, 7))
                },
                None => !stages_ok(views_of(lines@), start as int, 7),
            },
    {
        let ghost lv = views_of(lines@);
        let mut inner: Vec<Vec<Offset>> = Vec::new();
        let mut j: usize = start;
        let mut s: usize = 0;
        proof {
            assert(stages_of(lv, start as int, 7) =~= stages_model(inner@) + stages_of(
                lv,
                start as int,
                (7 - 0) as nat,
            ));
        }
        while s < 7
            invariant
                0 <= s <= 7,
                j <= lv.len(),
                lv == views_of(lines@),
                lines@.len() == lv.len(),
                inner@.len() == s,
                forall|i: int|
                    0 <= i < inner@.len() ==> stage_in_range(offsets_model(#[trigger] inner@[i]@)),
                stages_of(lv, start as int, 7) == stages_model(inner@) + stages_of(
                    lv,
                    j as int,
                    (7 - s) as nat,
                ),
                stages_ok(lv, start as int, 7) <==> stages_ok(lv, j as int, (7 - s) as nat),
            decreases 7 - s,
        {
            let ghost j0 = j as int;
            // skip the section's header line
            let c = if j < lines.len() {
                j + 1
            } else {
                j
            };
            proof {
                assert(sec_content(lv, j0) == c as int);
            }
            let mut stage: Vec<Offset> = Vec::new();
            j = c;
            while j < lines.len() && lines[j].len() > 0
                invariant
                    c <= j <= lv.len(),
                    lv == views_of(lines@),
                    lines@.len() == lv.len(),
                    forall|t: int| c <= t < j ==> #[trigger] lv[t].len() > 0,
                    block_ok(lv, c as int, j as int),
                    stage_in_range(offsets_model(stage@)),
                    offsets_model(stage@) == block_offsets(lv, c as int, j as int),
                decreases lv.len() - j,
            {
                assert(lv[j as int].len() > 0) by {
                    assert(lv[j as int] == lines@[j as int]@);
                }
                match parse_offset_line(&lines[j]) {
                    Some(o) => {
                        let ghost pre = stage@;
                        stage.push(o);
                        proof {
                            assert(lv[j as int] == lines@[j as int]@);
                            assert(offset_model(o) == line_offset(lv[j as int]));
                            assert(offsets_model(pre).len() == pre.len());
                            assert(block_offsets(lv, c as int, j as int).len() == j - c);
                            assert(pre.len() == j - c);
                            assert(stage@ == pre.push(o));
                            assert(block_offsets(lv, c as int, j as int + 1).len() == j + 1 - c);
                            assert(block_offsets(lv, c as int, j as int + 1)[j - c]
                                == line_offset(lv[j as int]));
                            assert forall|t: int| 0 <= t < stage@.len() implies offsets_model(
                                stage@,
                            )[t] == block_offsets(lv, c as int, j as int + 1)[t] by {
                                assert(lv[j as int] == lines@[j as int]@);
                                if t < pre.len() {
                                    assert(offsets_model(pre)[t] == block_offsets(
                                        lv,
                                        c as int,
                                        j as int,
                                    )[t]);
                                    assert(stage@[t] == pre[t]);
                                } else {
                                    assert(stage@[t] == o);
                                }
                            }
                            assert(offsets_model(stage@) =~= block_offsets(
                                lv,
                                c as int,
                                j as int + 1,
                            ));
                            assert forall|t: int|
                                0 <= t < offsets_model(stage@).len() implies offset_in_range(
                                #[trigger] offsets_model(stage@)[t],
                            ) by {
                                if t < pre.len() {
                                    assert(offsets_model(stage@)[t] == offsets_model(pre)[t]);
                                } else {
                                    assert(offsets_model(stage@)[t] == offset_model(o));
                                }
                            }
                        }
                        j = j + 1;
                    },
                    None => {
                        proof {
                            assert(lv[j as int] == lines@[j as int]@);
                            assert(!line_offset_ok(lv[j as int]));
                            lemma_block_end_past(lv, c as int, j as int);
                            let e = block_end(lv, c as int);
                            assert(!block_ok(lv, c as int, e));
                            assert(!stages_ok(lv, j0, (7 - s) as nat));
                        }
                        return None;
                    },
                }
            }
            proof {
                lemma_block_end_char(lv, c as int, j as int);
                assert(stages_of(lv, j0, (7 - s) as nat) == seq![
                    block_offsets(lv, c as int, j as int),
                ] + stages_of(lv, j as int + 1, (7 - s - 1) as nat));
                assert(stages_ok(lv, j0, (7 - s) as nat) <==> stages_ok(
                    lv,
                    j as int + 1,
                    (7 - s - 1) as nat,
                ));
            }
            let ghost e1 = j as int + 1;
            inner.push(stage);
            // skip the empty separator line
            if j < lines.len() {
                j = j + 1;
            }
            proof {
                assert(stages_of(lv, e1, (7 - s - 1) as nat) == stages_of(
                    lv,
                    j as int,
                    (7 - s - 1) as nat,
                ));
                assert(stages_ok(lv, e1, (7 - s - 1) as nat) <==> stages_ok(
                    lv,
                    j as int,
                    (7 - s - 1) as nat,
                ));
                assert(stages_model(inner@) =~= stages_model(inner@.drop_last()) + seq![
                    offsets_model(inner@.last()@),
                ]);
                assert(stages_of(lv, start as int, 7) =~= stages_model(inner@) + stages_of(
                    lv,
                    j as int,
                    (7 - s - 1) as nat,
                ));
            }
            s = s + 1;
        }
        proof {
            assert(stages_of(lv, j as int, 0) =~= Seq::<Seq<(int, int, int)>>::empty());
            assert(stages_model(inner@) =~= stages_model(inner@) + stages_of(lv, j as int, 0));
            assert(stages_model(inner@) == stages_of(lv, start as int, 7));
            assert forall|i: int| 0 <= i < stages_model(inner@).len() implies stage_in_range(
                #[trigger] stages_model(inner@)[i],
            ) by {
                assert(stages_model(inner@)[i] == offsets_model(inner@[i]@));
            }
            assert(stages_in_range(stages_model(inner@)));
        }
        // derive the discontinuity candidates, walking tables last to first
        let ghost sm = stages_model(inner@);
        let mut discs: Vec<i64> = Vec::new();
        let mut good: bool = true;
        let mut k: usize = 7;
        proof {
            assert(ints_of(discs@) =~= discs_spec(sm.skip(7)));
            assert(pull_ok(sm.skip(7))) by {
                assert(sm.skip(7) =~= Seq::<Seq<(int, int, int)>>::empty());
            }
        }
        while k > 0
            invariant
                0 <= k <= 7,
                inner@.len() == 7,
                sm == stages_model(inner@),
                stages_in_range(sm),
                good == pull_ok(sm.skip(k as int)),
                ints_of(discs@) == discs_spec(sm.skip(k as int)),
                forall|i: int|
                    0 <= i < discs@.len() ==> -(2 + 7 - k) * COORD_MAX <= #[trigger] discs@[i] <= (
                    2 + 7 - k) * COORD_MAX,
            decreases k,
        {
            k = k - 1;
            let ghost st = sm[k as int];
            proof {
                assert(sm.skip(k as int)[0] == st);
                assert(sm.skip(k as int).drop_first() =~= sm.skip(k as int + 1));
                assert(st == offsets_model(inner@[k as int]@));
            }
            let ghost old_discs = discs@;
            // pull existing candidates back through this table,
            // noting when the inversion is ambiguous or lossy
            let mut stage_good: bool = true;
            let mut i: usize = 0;
            while i < discs.len()
                invariant
                    0 <= i <= discs@.len(),
                    discs@.len() == old_discs.len(),
                    st == offsets_model(inner@[k as int]@),
                    stage_in_range(st),
                    k < 7,
                    inner@.len() == 7,
                    stage_good == forall|t: int|
                        0 <= t < i ==> pull_val_ok(st, (#[trigger] old_discs[t]) as int),
                    forall|t: int| i <= t < discs@.len() ==> discs@[t] == old_discs[t],
                    forall|t: int|
                        0 <= t < i ==> discs@[t] == rev_adjust(st, #[trigger] old_discs[t] as int),
                    forall|t: int|
                        0 <= t < old_discs.len() ==> -(2 + 7 - k - 1) * COORD_MAX
                            <= #[trigger] old_discs[t] <= (2 + 7 - k - 1) * COORD_MAX,
                    forall|t: int|
                        0 <= t < i ==> -(2 + 7 - k) * COORD_MAX <= #[trigger] discs@[t] <= (2 + 7
                            - k) * COORD_MAX,
                decreases discs@.len() - i,
            {
                let x = discs[i];
                proof {
                    assert(x == old_discs[i as int]);
                    assert(-(2 + 7 - k - 1) * COORD_MAX <= old_discs[i as int] <= (2 + 7 - k - 1)
                        * COORD_MAX);
                    assert((2 + 7 - k - 1) * COORD_MAX + COORD_MAX == (2 + 7 - k) * COORD_MAX);
                    assert((2 + 7 - k) * COORD_MAX <= 9 * COORD_MAX) by (nonlinear_arith)
                        requires
                            0 <= k,
                    ;
                }
                let m = count_shifted(&inner[k], x);
                let ok_here = if m > 1 {
                    false
                } else if m == 1 {
                    in_sources_exec(&inner[k], x)
                } else {
                    true
                };
                proof {
                    assert(ok_here == pull_val_ok(st, x as int));
                }
                if !ok_here {
                    stage_good = false;
                }
                let v = rev_apply(&inner[k], x);
                discs.set(i, v);
                i = i + 1;
            }
            // add this table's boundary values
            let stage_ref = &inner[k];
            let mut t: usize = 0;
            proof {
                assert(st.skip(0) =~= st);
                assert(ints_of(discs@) =~= Seq::new(
                    old_discs.len(),
                    |i: int| rev_adjust(st, old_discs[i] as int),
                ));
                assert(ints_of(discs@) =~= Seq::new(
                    discs_spec(sm.skip(k as int + 1)).len(),
                    |i: int| rev_adjust(st, discs_spec(sm.skip(k as int + 1))[i]),
                ));
            }
            let ghost base = ints_of(discs@);
            while t < stage_ref.len()
                invariant
                    0 <= t <= stage_ref@.len(),
                    st == offsets_model(stage_ref@),
                    stage_in_range(st),
                    k < 7,
                    ints_of(discs@) == base + stage_bounds(st.take(t as int)),
                    forall|i: int|
                        0 <= i < base.len() ==> -(2 + 7 - k) * COORD_MAX <= #[trigger] base[i] <= (
                        2 + 7 - k) * COORD_MAX,
                    forall|i: int|
                        0 <= i < discs@.len() ==> -(2 + 7 - k) * COORD_MAX <= #[trigger] discs@[i]
                            <= (2 + 7 - k) * COORD_MAX,
                decreases stage_ref@.len() - t,
            {
                let o = &stage_ref[t];
                discs.push(o.start);
                discs.push(o.end);
                proof {
                    lemma_stage_bounds_snoc(st, t as int);
                    assert(ints_of(discs@) =~= base + stage_bounds(st.take(t as int)) + seq![
                        st[t as int].0,
                        st[t as int].1,
                    ]);
                }
                t = t + 1;
            }
            proof {
                assert(st.take(st.len() as int) =~= st);
                assert(ints_of(discs@) =~= discs_spec(sm.skip(k as int)));
                let rest = discs_spec(sm.skip(k as int + 1));
                assert(rest == ints_of(old_discs));
                assert forall|i2: int| 0 <= i2 < rest.len() implies pull_val_ok(
                    st,
                    #[trigger] rest[i2],
                ) == pull_val_ok(st, old_discs[i2] as int) by {
                    assert(rest[i2] == old_discs[i2] as int);
                }
                if stage_good {
                    assert forall|i2: int| 0 <= i2 < rest.len() implies pull_val_ok(
                        st,
                        #[trigger] rest[i2],
                    ) by {
                        assert(rest[i2] == old_discs[i2] as int);
                        assert(pull_val_ok(st, old_discs[i2] as int));
                    }
                } else {
                    let tb = choose|t: int|
                        0 <= t < old_discs.len() && !pull_val_ok(st, (#[trigger] old_discs[t]) as int);
                    assert(rest[tb] == old_discs[tb] as int);
                    assert(!pull_val_ok(st, rest[tb]));
                }
                assert((forall|i2: int| 0 <= i2 < rest.len() ==> pull_val_ok(
                    st,
                    #[trigger] rest[i2],
                )) == stage_good);
                assert(pull_ok(sm.skip(k as int)) == (stage_good && pull_ok(
                    sm.skip(k as int + 1),
                )));
            }
            good = good && stage_good;
        }
        proof {
            assert(sm.skip(0) =~= sm);
        }
        let a = Almanac {
            translations: Translations { inner },
            discontinuities: discs,
            complete: good,
        };
        Some(a)
    }
}

/// The whitespace-separated tokens after the first colon of `l`.
pub open spec fn seed_tokens(l: Seq<u8>) -> Seq<Seq<u8>> {
    colon_tokens(l)
}

/// The seeds line holds a colon followed by numbers, each at most
/// `COORD_MAX`.
pub open spec fn seeds_ok(l: Seq<u8>) -> bool {
    &&& has_colon(l)
    &&& nums_ok(seed_tokens(l))
    &&& forall|k: int|
        0 <= k < seed_tokens(l).len() ==> #[trigger] nums_of(seed_tokens(l))[k] <= COORD_MAX
}

/// The numbers listed on the seeds line.
pub open spec fn seed_vals(l: Seq<u8>) -> Seq<int> {
    nums_of(seed_tokens(l))
}

/// Reads the seeds line.
///
/// Returns the listed numbers exactly when the line has a colon
/// followed by numbers in the accepted window, and `None` otherwise.
#[verifier::loop_isolation(false)]
fn parse_seeds(l: &Vec<u8>) -> (r: Option<Vec<i64>>)
    ensures
        match r {
            Some(v) => seeds_ok(l@) && ints_of(v@) == seed_vals(l@) && forall|k: int|
                0 <= k < v@.len() ==> 0 <= #[trigger] v@[k] <= COORD_MAX,
            None => !seeds_ok(l@),
        },
{
    match tokens_after_colon(l) {
        None => None,
        Some(toks) => {
            match parse_nums(&toks) {
                None => None,
                Some(ns) => {
                    let ghost sv = seed_vals(l@);
                    let mut out: Vec<i64> = Vec::new();
                    let mut k: usize = 0;
                    proof {
                        assert(sv.len() == ns@.len()) by {
                            assert(seed_tokens(l@).len() == toks@.len());
                        }
                    }
                    while k < ns.len()
                        invariant
                            0 <= k <= ns@.len(),
                            out@.len() == k,
                            forall|t: int| 0 <= t < k ==> 0 <= #[trigger] out@[t] <= COORD_MAX,
                            forall|t: int| 0 <= t < k ==> #[trigger] out@[t] == sv[t],
                            forall|t: int| 0 <= t < k ==> #[trigger] sv[t] <= COORD_MAX,
                        decreases ns@.len() - k,
                    {
                        proof {
                            assert(views_of(toks@)[k as int] == toks@[k as int]@);
                            assert(sv[k as int] == ns@[k as int]);
                        }
                        if ns[k] > COORD_MAX as u64 {
                            assert(!seeds_ok(l@)) by {
                                assert(nums_of(seed_tokens(l@))[k as int] > COORD_MAX);
                            }
                            return None;
                        }
                        out.push(ns[k] as i64);
                        k = k + 1;
                    }
                    proof {
                        assert(ints_of(out@) =~= sv);
                    }
                    Some(out)
                },
            }
        },
    }
}

/// The seven translation tables of a well-formed input, whose seeds
/// line sits at line 0, an empty line follows, and the first table
/// header is line 2.
pub open spec fn p1_stages(lv: Seq<Seq<u8>>) -> Seq<Seq<(int, int, int)>> {
    stages_of(lv, 2, 7)
}

/// The discontinuity candidates of the input's tables.
pub open spec fn p1_discs(lv: Seq<Seq<u8>>) -> Seq<int> {
    discs_spec(p1_stages(lv))
}

/// The location a seed value of the input is sent to.
pub open spec fn seed_loc(lv: Seq<Seq<u8>>, x: int) -> int {
    loc_through(p1_stages(lv), x)
}

/// A part-one input is well formed: a seeds line with at least one
/// seed, and seven well-formed translation sections.
pub open spec fn part1_ok(lv: Seq<Seq<u8>>) -> bool {
    &&& lv.len() >= 1
    &&& seeds_ok(lv[0])
    &&& seed_vals(lv[0]).len() >= 1
    &&& stages_ok(lv, 2, 7)
}

/// Finds the least location any listed seed is sent to.
///
/// Returns it exactly when the input is well formed with at least one
/// seed, and `None` otherwise.
#[verifier::loop_isolation(false)]
pub fn solve_part1(lines: &Vec<Vec<u8>>) -> (r: Option<i64>)
    ensures
        match r {
            Some(v) => {
                &&& part1_ok(views_of(lines@))
                &&& exists|k: int|
                    0 <= k < seed_vals(views_of(lines@)[0]).len() && v == seed_loc(
                        views_of(lines@),
                        #[trigger] seed_vals(views_of(lines@)[0])[k],
                    )
                &&& forall|k: int|
                    0 <= k < seed_vals(views_of(lines@)[0]).len() ==> v <= seed_loc(
                        views_of(lines@),
                        #[trigger] seed_vals(views_of(lines@)[0])[k],
                    )
            },
            None => !part1_ok(views_of(lines@)),
        },
{
    let ghost lv = views_of(lines@);
    if lines.len() == 0 {
        return None;
    }
    proof {
        assert(lv[0] == lines@[0]@);
    }
    let seeds = match parse_seeds(&lines[0]) {
        None => {
            return None;
        },
        Some(s) => s,
    };
    if seeds.len() == 0 {
        proof {
            assert(seed_vals(lv[0]).len() == ints_of(seeds@).len());
        }
        return None;
    }
    let start: usize = if lines.len() >= 2 {
        2
    } else {
        lines.len()
    };
    proof {
        assert(stages_of(lv, start as int, 7) == stages_of(lv, 2, 7));
        assert(stages_ok(lv, start as int, 7) == stages_ok(lv, 2, 7));
    }
    let alm = match Almanac::from_lines(lines, start) {
        None => {
            return None;
        },
        Some(a) => a,
    };
    let ghost sv = seed_vals(lv[0]);
    proof {
        assert(sv.len() == seeds@.len());
        assert(seeds@[0] == sv[0]);
    }
    let mut best: i64 = alm.translations.get_loc(seeds[0]);
    let mut k: usize = 1;
    while k < seeds.len()
        invariant
            1 <= k <= seeds@.len(),
            exists|t: int| 0 <= t < k && best == seed_loc(lv, #[trigger] sv[t]),
            forall|t: int| 0 <= t < k ==> best <= seed_loc(lv, #[trigger] sv[t]),
        decreases seeds@.len() - k,
    {
        proof {
            assert(seeds@[k as int] == sv[k as int]);
        }
        let v = alm.translations.get_loc(seeds[k]);
        if v < best {
            best = v;
        }
        k = k + 1;
    }
    Some(best)
}

/// A part-two input is well formed: a seeds line with an even number
/// of at least two seeds forming nonempty ranges, seven well-formed
/// translation sections, and tables whose reverse pass loses no
/// breakpoint, so walking the candidate points finds the least
/// location of any seed.
pub open spec fn part2_ok(lv: Seq<Seq<u8>>) -> bool {
    &&& lv.len() >= 1
    &&& seeds_ok(lv[0])
    &&& seed_vals(lv[0]).len() >= 2
    &&& seed_vals(lv[0]).len() % 2 == 0
    &&& forall|q: int|
        0 <= q && q + 1 < seed_vals(lv[0]).len() && q % 2 == 0 ==> #[trigger] seed_vals(
            lv[0],
        )[q + 1] >= 1
    &&& stages_ok(lv, 2, 7)
    &&& pull_ok(p1_stages(lv))
}

/// A value examined by part two: the start of one of the seed ranges,
/// or a discontinuity candidate falling inside one of the ranges.
spec fn cand(sv: Seq<int>, ds: Seq<int>, x: int) -> bool {
    ||| exists|q: int| 0 <= q && q + 1 < sv.len() && q % 2 == 0 && x == #[trigger] sv[q]
    ||| exists|q: int, i: int|
        #![trigger sv[q], ds[i]]
        0 <= q && q + 1 < sv.len() && q % 2 == 0 && 0 <= i < ds.len() && sv[q] <= ds[i] < sv[q]
            + sv[q + 1] && x == ds[i]
}

/// The candidate values of the input.
spec fn is_candidate(lv: Seq<Seq<u8>>, x: int) -> bool {
    cand(seed_vals(lv[0]), p1_discs(lv), x)
}

/// Are all the (start, length) ranges nonempty?
#[verifier::loop_isolation(false)]
fn ranges_nonempty(seeds: &Vec<i64>) -> (b: bool)
    ensures
        b == (forall|q: int|
            0 <= q && q + 1 < ints_of(seeds@).len() && q % 2 == 0 ==> #[trigger] ints_of(
                seeds@,
            )[q + 1] >= 1),
{
    let ghost svv = ints_of(seeds@);
    let mut k: usize = 1;
    while k < seeds.len()
        invariant
            1 <= k,
            k % 2 == 1,
            svv == ints_of(seeds@),
            forall|q: int| 0 <= q && q + 1 < k && q % 2 == 0 ==> #[trigger] svv[q + 1] >= 1,
        decreases seeds@.len() + 1 - k,
    {
        proof {
            assert(svv[k as int] == seeds@[k as int] as int);
        }
        if seeds[k] < 1 {
            proof {
                assert(svv[k - 1 + 1] < 1);
                assert((k - 1) % 2 == 0);
            }
            return false;
        }
        k = k + 2;
        proof {
            assert forall|q: int| 0 <= q && q + 1 < k && q % 2 == 0 implies #[trigger] svv[q + 1]
                >= 1 by {
                if q + 1 == k - 2 + 1 {
                }
            }
        }
    }
    proof {
        assert forall|q: int|
            0 <= q && q + 1 < svv.len() && q % 2 == 0 implies #[trigger] svv[q + 1] >= 1 by {
            assert(q + 1 < k);
        }
    }
    true
}

/// Walks every range start and every pulled-back breakpoint falling
/// inside a range, and returns the least location among them.
#[verifier::loop_isolation(false)]
#[verifier::rlimit(60)]
fn min_over_candidates(alm: &Almanac, seeds: &Vec<i64>) -> (best: i64)
    requires
        alm.wf(),
        seeds@.len() >= 2,
        seeds@.len() % 2 == 0,
        forall|k: int| 0 <= k < seeds@.len() ==> 0 <= #[trigger] seeds@[k] <= COORD_MAX,
    ensures
        ({
            let ss = stages_model(alm.translations.inner@);
            let ds = ints_of(alm.discontinuities@);
            let svv = ints_of(seeds@);
            &&& exists|x: int| #[trigger] cand(svv, ds, x) && best == loc_through(ss, x)
            &&& forall|q: int|
                0 <= q < svv.len() && q % 2 == 0 ==> best <= loc_through(ss, #[trigger] svv[q])
            &&& forall|q: int, i: int|
                #![trigger svv[q], ds[i]]
                0 <= q < svv.len() && q % 2 == 0 && 0 <= i < ds.len() && svv[q] <= ds[i] < svv[q]
                    + svv[q + 1] ==> best <= loc_through(ss, ds[i])
        }),
{
    let ghost ss = stages_model(alm.translations.inner@);
    let ghost ds = ints_of(alm.discontinuities@);
    let ghost svv = ints_of(seeds@);
    proof {
        assert(seeds@[0] == svv[0]);
        assert(cand(svv, ds, svv[0])) by {
            assert(0 <= 0int && 0int + 1 < svv.len() && 0int % 2 == 0 && svv[0] == svv[0]);
        }
    }
    let mut best: i64 = alm.translations.get_loc(seeds[0]);
    let npairs: usize = seeds.len() / 2;
    let mut p: usize = 0;
    while p < npairs
        invariant
            0 <= p <= npairs,
            npairs == seeds@.len() / 2,
            exists|x: int| #[trigger] cand(svv, ds, x) && best == loc_through(ss, x),
            forall|q: int|
                0 <= q < 2 * p && q % 2 == 0 ==> best <= loc_through(ss, #[trigger] svv[q]),
            forall|q: int, i: int|
                #![trigger svv[q], ds[i]]
                0 <= q < 2 * p && q % 2 == 0 && 0 <= i < ds.len() && svv[q] <= ds[i] < svv[q]
                    + svv[q + 1] ==> best <= loc_through(ss, ds[i]),
        decreases npairs - p,
    {
        let ps = seeds[2 * p];
        let pl = seeds[2 * p + 1];
        proof {
            assert(ps == svv[2 * p as int]);
            assert(pl == svv[2 * p as int + 1]);
            assert(cand(svv, ds, svv[2 * p as int])) by {
                assert(0 <= 2 * p as int && 2 * p as int + 1 < svv.len() && (2 * p as int) % 2 == 0
                    && svv[2 * p as int] == svv[2 * p as int]);
            }
        }
        let v = alm.translations.get_loc(ps);
        if v < best {
            best = v;
        }
        let mut i: usize = 0;
        while i < alm.discontinuities.len()
            invariant
                0 <= i <= ds.len(),
                exists|x: int| #[trigger] cand(svv, ds, x) && best == loc_through(ss, x),
                best <= loc_through(ss, svv[2 * p as int]),
                forall|q: int|
                    0 <= q < 2 * p && q % 2 == 0 ==> best <= loc_through(ss, #[trigger] svv[q]),
                forall|q: int, t: int|
                    #![trigger svv[q], ds[t]]
                    0 <= q < 2 * p && q % 2 == 0 && 0 <= t < ds.len() && svv[q] <= ds[t] < svv[q]
                        + svv[q + 1] ==> best <= loc_through(ss, ds[t]),
                forall|t: int|
                    0 <= t < i && svv[2 * p as int] <= #[trigger] ds[t] < svv[2 * p as int] + svv[2
                        * p as int + 1] ==> best <= loc_through(ss, ds[t]),
            decreases ds.len() - i,
        {
            let d = alm.discontinuities[i];
            proof {
                assert(d == ds[i as int]);
            }
            if ps <= d && d < ps + pl {
                proof {
                    assert(cand(svv, ds, ds[i as int])) by {
                        let qi: int = 2 * p as int;
                        let ti: int = i as int;
                        assert(0 <= qi && qi + 1 < svv.len() && qi % 2 == 0 && 0 <= ti && ti
                            < ds.len() && svv[qi] <= ds[ti] < svv[qi] + svv[qi + 1]);
                        assert(ds[ti] == ds[ti]);
                    }
                }
                let w = alm.translations.get_loc(d);
                if w < best {
                    best = w;
                }
            }
            i = i + 1;
        }
        p = p + 1;
        proof {
            assert forall|q: int| 0 <= q < 2 * p && q % 2 == 0 implies best <= loc_through(
                ss,
                #[trigger] svv[q],
            ) by {
                if q == 2 * (p - 1) {
                    assert(svv[q] == svv[2 * (p - 1) as int]);
                }
            }
        }
    }
    proof {
        assert(2 * (npairs as int) == svv.len());
    }
    best
}

/// Treats the seeds line as (start, length) pairs and finds the
/// least location over every seed inside the ranges.  Only the range
/// starts and the tables' pulled-back breakpoints are walked; the
/// reverse pass checks that this loses no breakpoint, so the walk
/// attains the true minimum.
///
/// Returns it exactly when the input is well formed with a nonempty,
/// even seed list of nonempty ranges and invertible tables, and
/// `None` otherwise.
#[verifier::loop_isolation(false)]
#[verifier::rlimit(100)]
#[verifier::spinoff_prover]
pub fn solve_part2(lines: &Vec<Vec<u8>>) -> (r: Option<i64>)
    ensures
        match r {
            Some(v) => {
                &&& part2_ok(views_of(lines@))
                &&& exists|q: int, t: int|
                    #![trigger seed_vals(views_of(lines@)[0])[q], seed_loc(views_of(lines@), t)]
                    0 <= q && q + 1 < seed_vals(views_of(lines@)[0]).len() && q % 2 == 0
                        && seed_vals(views_of(lines@)[0])[q] <= t < seed_vals(
                        views_of(lines@)[0],
                    )[q] + seed_vals(views_of(lines@)[0])[q + 1] && v == seed_loc(
                        views_of(lines@),
                        t,
                    )
                &&& forall|q: int, t: int|
                    #![trigger seed_vals(views_of(lines@)[0])[q], seed_loc(views_of(lines@), t)]
                    (0 <= q && q + 1 < seed_vals(views_of(lines@)[0]).len() && q % 2 == 0
                        && seed_vals(views_of(lines@)[0])[q] <= t < seed_vals(
                        views_of(lines@)[0],
                    )[q] + seed_vals(views_of(lines@)[0])[q + 1]) ==> v <= seed_loc(
                        views_of(lines@),
                        t,
                    )
            },
            None => !part2_ok(views_of(lines@)),
        },
{
    let ghost lv = views_of(lines@);
    if lines.len() == 0 {
        return None;
    }
    proof {
        assert(lv[0] == lines@[0]@);
    }
    let seeds = match parse_seeds(&lines[0]) {
        None => {
            return None;
        },
        Some(s) => s,
    };
    let ghost sv = seed_vals(lv[0]);
    proof {
        assert(sv == ints_of(seeds@));
    }
    if seeds.len() < 2 || seeds.len() % 2 != 0 {
        return None;
    }
    if !ranges_nonempty(&seeds) {
        return None;
    }
    let start: usize = if lines.len() >= 2 {
        2
    } else {
        lines.len()
    };
    proof {
        assert(stages_of(lv, start as int, 7) == stages_of(lv, 2, 7));
        assert(stages_ok(lv, start as int, 7) == stages_ok(lv, 2, 7));
    }
    let alm = match Almanac::from_lines(lines, start) {
        None => {
            return None;
        },
        Some(a) => a,
    };
    if !alm.complete {
        proof {
            assert(!pull_ok(p1_stages(lv)));
        }
        return None;
    }
    let best = min_over_candidates(&alm, &seeds);
    proof {
        assert(stages_model(alm.translations.inner@) == p1_stages(lv));
        assert(ints_of(alm.discontinuities@) == p1_discs(lv));
        let ds = p1_discs(lv);
        assert(exists|x: int| #[trigger] is_candidate(lv, x) && best as int == seed_loc(lv, x)) by {
            let xc = choose|x: int|
                #[trigger] cand(sv, ds, x) && best as int == loc_through(p1_stages(lv), x);
            assert(is_candidate(lv, xc) && best as int == seed_loc(lv, xc));
        }
        assert forall|q: int| 0 <= q < sv.len() && q % 2 == 0 implies best as int <= seed_loc(
            lv,
            #[trigger] sv[q],
        ) by {}
        assert forall|q: int, i: int|
            #![trigger sv[q], ds[i]]
            0 <= q < sv.len() && q % 2 == 0 && 0 <= i < ds.len() && sv[q] <= ds[i] < sv[q] + sv[q
                + 1] implies best as int <= seed_loc(lv, ds[i]) by {}
        lemma_part2_done(lv, best as int);
    }
    Some(best)
}

/// From the walked candidates' minimum, the true minimum over every
/// seed in the ranges: each seed's location is reached by walking
/// down to the nearest candidate or range start.
proof fn lemma_part2_done(lv: Seq<Seq<u8>>, best: int)
    requires
        pull_ok(p1_stages(lv)),
        seed_vals(lv[0]).len() % 2 == 0,
        forall|q: int|
            0 <= q && q + 1 < seed_vals(lv[0]).len() && q % 2 == 0 ==> #[trigger] seed_vals(
                lv[0],
            )[q + 1] >= 1,
        exists|x: int| #[trigger] is_candidate(lv, x) && best == seed_loc(lv, x),
        forall|q: int|
            0 <= q < seed_vals(lv[0]).len() && q % 2 == 0 ==> best <= seed_loc(
                lv,
                #[trigger] seed_vals(lv[0])[q],
            ),
        forall|q: int, i: int|
            #![trigger seed_vals(lv[0])[q], p1_discs(lv)[i]]
            0 <= q < seed_vals(lv[0]).len() && q % 2 == 0 && 0 <= i < p1_discs(lv).len()
                && seed_vals(lv[0])[q] <= p1_discs(lv)[i] < seed_vals(lv[0])[q] + seed_vals(
                lv[0],
            )[q + 1] ==> best <= seed_loc(lv, p1_discs(lv)[i]),
    ensures
        exists|q: int, t: int|
            #![trigger seed_vals(lv[0])[q], seed_loc(lv, t)]
            0 <= q && q + 1 < seed_vals(lv[0]).len() && q % 2 == 0 && seed_vals(lv[0])[q] <= t
                < seed_vals(lv[0])[q] + seed_vals(lv[0])[q + 1] && best == seed_loc(lv, t),
        forall|q: int, t: int|
            #![trigger seed_vals(lv[0])[q], seed_loc(lv, t)]
            (0 <= q && q + 1 < seed_vals(lv[0]).len() && q % 2 == 0 && seed_vals(lv[0])[q] <= t
                < seed_vals(lv[0])[q] + seed_vals(lv[0])[q + 1]) ==> best <= seed_loc(lv, t),
{
    let sv = seed_vals(lv[0]);
    let ds = p1_discs(lv);
    // the walked minimum is attained by a seed inside a range
    let xw = choose|x: int| #[trigger] is_candidate(lv, x) && best == seed_loc(lv, x);
    if exists|q: int| 0 <= q && q + 1 < sv.len() && q % 2 == 0 && xw == #[trigger] sv[q] {
        let q = choose|q: int| 0 <= q && q + 1 < sv.len() && q % 2 == 0 && xw == #[trigger] sv[q];
        assert(sv[q + 1] >= 1);
        assert(sv[q] <= xw < sv[q] + sv[q + 1] && best == seed_loc(lv, xw));
    } else {
        let (q, i) = choose|q: int, i: int|
            #![trigger sv[q], ds[i]]
            0 <= q && q + 1 < sv.len() && q % 2 == 0 && 0 <= i < ds.len() && sv[q] <= ds[i] < sv[q]
                + sv[q + 1] && xw == ds[i];
        assert(sv[q] <= xw < sv[q] + sv[q + 1] && best == seed_loc(lv, xw));
    }
    // and it is below every seed of every range
    assert forall|q: int, t: int|
        #![trigger sv[q], seed_loc(lv, t)]
        (0 <= q && q + 1 < sv.len() && q % 2 == 0 && sv[q] <= t < sv[q] + sv[q + 1]) implies best
        <= seed_loc(lv, t) by {
        let c = lemma_range_min(p1_stages(lv), ds, sv[q], t);
        if c == sv[q] {
            assert(best <= seed_loc(lv, sv[q]));
        } else {
            let i = choose|i: int| 0 <= i < ds.len() && #[trigger] ds[i] == c;
            assert(sv[q] <= ds[i] < sv[q] + sv[q + 1]);
            assert(best <= seed_loc(lv, ds[i]));
        }
        assert(seed_loc(lv, c) <= seed_loc(lv, t));
    }
}


/// `v` is the start or end of one of the table's ranges.
pub open spec fn is_bound(os: Seq<(int, int, int)>, v: int) -> bool
    decreases os.len(),
{
    if os.len() == 0 {
        false
    } else {
        v == os[0].0 || v == os[0].1 || is_bound(os.drop_first(), v)
    }
}

/// The value's walk through the tables passes a range boundary: `v`
/// is a boundary of the first table, or its image one of the rest.
pub open spec fn hits(ss: Seq<Seq<(int, int, int)>>, v: int) -> bool
    decreases ss.len(),
{
    if ss.len() == 0 {
        false
    } else {
        is_bound(ss[0], v) || hits(ss.drop_first(), stage_apply(ss[0], v))
    }
}

/// How many ranges' shifted images contain `v`.
pub open spec fn shifted_matches(os: Seq<(int, int, int)>, v: int) -> int
    decreases os.len(),
{
    if os.len() == 0 {
        0
    } else {
        (if os[0].0 + os[0].2 <= v < os[0].1 + os[0].2 {
            1int
        } else {
            0int
        }) + shifted_matches(os.drop_first(), v)
    }
}

/// `v` lies inside some range of the table.
pub open spec fn in_sources(os: Seq<(int, int, int)>, v: int) -> bool {
    exists|r: int| 0 <= r < os.len() && (#[trigger] os[r]).0 <= v < os[r].1
}

/// The reverse pass can invert the table at `v`: at most one shifted
/// image holds it, and one holding it rules the identity out.
pub open spec fn pull_val_ok(os: Seq<(int, int, int)>, v: int) -> bool {
    &&& shifted_matches(os, v) <= 1
    &&& (shifted_matches(os, v) == 1 ==> in_sources(os, v))
}

/// The reverse pass loses no boundary: at every table, every carried
/// candidate can be inverted.
pub open spec fn pull_ok(ss: Seq<Seq<(int, int, int)>>) -> bool
    decreases ss.len(),
{
    if ss.len() == 0 {
        true
    } else {
        let rest = discs_spec(ss.drop_first());
        (forall|i: int| 0 <= i < rest.len() ==> pull_val_ok(ss[0], #[trigger] rest[i]))
            && pull_ok(ss.drop_first())
    }
}

/// `v` occurs in the list.
pub open spec fn in_list(ds: Seq<int>, v: int) -> bool {
    exists|i: int| 0 <= i < ds.len() && #[trigger] ds[i] == v
}

/// Applying a table either shifts the value by the first containing
/// range's amount, or leaves a value outside every range unchanged.
proof fn lemma_apply_cases(os: Seq<(int, int, int)>, u: int)
    ensures
        (!in_sources(os, u) && stage_apply(os, u) == u) || exists|r: int|
            0 <= r < os.len() && (#[trigger] os[r]).0 <= u < os[r].1 && stage_apply(os, u) == u
                + os[r].2,
    decreases os.len(),
{
    if os.len() > 0 {
        if os[0].0 <= u < os[0].1 {
            assert(os[0].0 <= u < os[0].1 && stage_apply(os, u) == u + os[0].2);
        } else {
            lemma_apply_cases(os.drop_first(), u);
            if !in_sources(os.drop_first(), u) && stage_apply(os.drop_first(), u) == u {
                assert(!in_sources(os, u)) by {
                    assert forall|r: int| 0 <= r < os.len() implies !((#[trigger] os[r]).0 <= u
                        < os[r].1) by {
                        if r > 0 {
                            assert(os.drop_first()[r - 1] == os[r]);
                        }
                    }
                }
            } else {
                let r = choose|r: int|
                    0 <= r < os.drop_first().len() && (#[trigger] os.drop_first()[r]).0 <= u
                        < os.drop_first()[r].1 && stage_apply(os.drop_first(), u) == u
                        + os.drop_first()[r].2;
                assert(os.drop_first()[r] == os[r + 1]);
                assert(os[r + 1].0 <= u < os[r + 1].1 && stage_apply(os, u) == u + os[r + 1].2);
            }
        }
    }
}

/// Shifted-image counts are never negative.
proof fn lemma_matches_nonneg(os: Seq<(int, int, int)>, v: int)
    ensures
        shifted_matches(os, v) >= 0,
    decreases os.len(),
{
    if os.len() > 0 {
        lemma_matches_nonneg(os.drop_first(), v);
    }
}

/// A range whose shifted image holds `v` makes the count positive.
proof fn lemma_matches_at_least(os: Seq<(int, int, int)>, v: int, k: int)
    requires
        0 <= k < os.len(),
        os[k].0 + os[k].2 <= v < os[k].1 + os[k].2,
    ensures
        shifted_matches(os, v) >= 1,
    decreases os.len(),
{
    lemma_matches_nonneg(os.drop_first(), v);
    if k > 0 {
        assert(os.drop_first()[k - 1] == os[k]);
        lemma_matches_at_least(os.drop_first(), v, k - 1);
    }
}

/// With at most one shifted image holding `v`, the reverse pass
/// inverts through the one that does.
proof fn lemma_rev_unique(os: Seq<(int, int, int)>, v: int, k: int)
    requires
        0 <= k < os.len(),
        os[k].0 + os[k].2 <= v < os[k].1 + os[k].2,
        shifted_matches(os, v) <= 1,
    ensures
        rev_adjust(os, v) == v - os[k].2,
    decreases os.len(),
{
    if k == 0 {
    } else {
        assert(os.drop_first()[k - 1] == os[k]);
        lemma_matches_at_least(os.drop_first(), v, k - 1);
        if os[0].0 + os[0].2 <= v < os[0].1 + os[0].2 {
            assert(shifted_matches(os, v) >= 2);
        }
        lemma_rev_unique(os.drop_first(), v, k - 1);
    }
}

/// With no shifted image holding `v`, the reverse pass keeps it.
proof fn lemma_rev_nomatch(os: Seq<(int, int, int)>, v: int)
    requires
        shifted_matches(os, v) == 0,
    ensures
        rev_adjust(os, v) == v,
    decreases os.len(),
{
    if os.len() > 0 {
        lemma_matches_nonneg(os.drop_first(), v);
        lemma_rev_nomatch(os.drop_first(), v);
    }
}

/// When the reverse pass can invert the value's image, it recovers
/// the value.
proof fn lemma_rev_correct(os: Seq<(int, int, int)>, u: int)
    requires
        pull_val_ok(os, stage_apply(os, u)),
    ensures
        rev_adjust(os, stage_apply(os, u)) == u,
{
    let v = stage_apply(os, u);
    lemma_apply_cases(os, u);
    if !in_sources(os, u) && v == u {
        lemma_matches_nonneg(os, v);
        if shifted_matches(os, v) >= 1 {
            assert(in_sources(os, v));
        }
        lemma_rev_nomatch(os, v);
    } else {
        let r = choose|r: int|
            0 <= r < os.len() && (#[trigger] os[r]).0 <= u < os[r].1 && stage_apply(os, u) == u
                + os[r].2;
        assert(os[r].0 + os[r].2 <= v < os[r].1 + os[r].2);
        lemma_rev_unique(os, v, r);
    }
}

/// A boundary of a table appears in its boundary list.
proof fn lemma_is_bound_in(os: Seq<(int, int, int)>, v: int)
    requires
        is_bound(os, v),
    ensures
        in_list(stage_bounds(os), v),
    decreases os.len(),
{
    if v == os[0].0 {
        assert(stage_bounds(os)[0] == v);
    } else if v == os[0].1 {
        assert(stage_bounds(os)[1] == v);
    } else {
        lemma_is_bound_in(os.drop_first(), v);
        let i = choose|i: int|
            0 <= i < stage_bounds(os.drop_first()).len() && #[trigger] stage_bounds(
                os.drop_first(),
            )[i] == v;
        assert(stage_bounds(os)[i + 2] == v);
    }
}

/// Within one table, stepping a value by one either steps its image
/// by one or lands on a range boundary.
proof fn lemma_stage_step(os: Seq<(int, int, int)>, u: int)
    ensures
        stage_apply(os, u + 1) == stage_apply(os, u) + 1 || is_bound(os, u + 1),
    decreases os.len(),
{
    if os.len() > 0 {
        let r = os[0];
        if r.0 <= u < r.1 && r.0 <= u + 1 < r.1 {
        } else if r.0 <= u < r.1 {
            assert(u + 1 == r.1);
        } else if r.0 <= u + 1 < r.1 {
            assert(u + 1 == r.0);
        } else {
            lemma_stage_step(os.drop_first(), u);
        }
    }
}

/// Through all the tables, stepping a seed by one either steps its
/// location by one or passes a range boundary on the way.
proof fn lemma_loc_step(ss: Seq<Seq<(int, int, int)>>, x: int)
    ensures
        loc_through(ss, x + 1) == loc_through(ss, x) + 1 || hits(ss, x + 1),
    decreases ss.len(),
{
    if ss.len() > 0 {
        lemma_stage_step(ss[0], x);
        if stage_apply(ss[0], x + 1) == stage_apply(ss[0], x) + 1 {
            lemma_loc_step(ss.drop_first(), stage_apply(ss[0], x));
        }
    }
}

/// Every value whose walk passes a boundary is on the candidate list
/// when the reverse pass can invert everything it carries.
proof fn lemma_pull_covers(ss: Seq<Seq<(int, int, int)>>, v: int)
    requires
        pull_ok(ss),
        hits(ss, v),
    ensures
        in_list(discs_spec(ss), v),
    decreases ss.len(),
{
    let rest = discs_spec(ss.drop_first());
    let adjusted_part = Seq::new(rest.len(), |i: int| rev_adjust(ss[0], rest[i]));
    if is_bound(ss[0], v) {
        lemma_is_bound_in(ss[0], v);
        let i = choose|i: int|
            0 <= i < stage_bounds(ss[0]).len() && #[trigger] stage_bounds(ss[0])[i] == v;
        assert(discs_spec(ss)[adjusted_part.len() + i] == v);
    } else {
        let w = stage_apply(ss[0], v);
        lemma_pull_covers(ss.drop_first(), w);
        let i = choose|i: int| 0 <= i < rest.len() && #[trigger] rest[i] == w;
        assert(pull_val_ok(ss[0], rest[i]));
        lemma_rev_correct(ss[0], v);
        assert(discs_spec(ss)[i] == rev_adjust(ss[0], rest[i]));
        assert(discs_spec(ss)[i] == v);
    }
}

/// Walking down from `x` to the range start `s`, the location can
/// only drop at a listed candidate: some candidate at or below `x`
/// (or the start itself) has a location no larger than `x`'s.
proof fn lemma_range_min(ss: Seq<Seq<(int, int, int)>>, ds: Seq<int>, s: int, x: int) -> (c: int)
    requires
        pull_ok(ss),
        ds == discs_spec(ss),
        s <= x,
    ensures
        c == s || (in_list(ds, c) && s <= c <= x),
        loc_through(ss, c) <= loc_through(ss, x),
    decreases x - s,
{
    if x == s {
        s
    } else if in_list(ds, x) {
        x
    } else {
        lemma_loc_step(ss, x - 1);
        if hits(ss, x) {
            lemma_pull_covers(ss, x);
            assert(false);
        }
        assert(loc_through(ss, (x - 1) + 1) == loc_through(ss, x - 1) + 1);
        let c = lemma_range_min(ss, ds, s, x - 1);
        c
    }
}

/// Appending one more range to a prefix extends its boundary list by
/// that range's start and end.
proof fn lemma_stage_bounds_snoc(st: Seq<(int, int, int)>, t: int)
    requires
        0 <= t < st.len(),
    ensures
        stage_bounds(st.take(t + 1)) == stage_bounds(st.take(t)) + seq![st[t].0, st[t].1],
    decreases t,
{
    if t == 0 {
        assert(st.take(1) =~= seq![st[0]]);
        assert(st.take(1).drop_first() =~= Seq::<(int, int, int)>::empty());
        assert(st.take(0) =~= Seq::<(int, int, int)>::empty());
    } else {
        assert(st.take(t + 1)[0] == st[0]);
        assert(st.take(t + 1).drop_first() =~= st.drop_first().take(t));
        assert(st.take(t)[0] == st[0]);
        assert(st.take(t).drop_first() =~= st.drop_first().take(t - 1));
        assert(st.drop_first()[t - 1] == st[t]);
        lemma_stage_bounds_snoc(st.drop_first(), t - 1);
    }
}

} // verus!
