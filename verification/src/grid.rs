//! Shared model of rectangular byte grids: the input lines joined into
//! one flat row-major map, and bounds-checked cell reads that treat
//! everything outside the grid as an empty cell.

use vstd::prelude::*;
use crate::text::views_of;

verus! {

/// The width every line of a rectangular input shares.
pub open spec fn width_of(lv: Seq<Seq<u8>>) -> int {
    if lv.len() == 0 {
        0
    } else {
        lv[0].len() as int
    }
}

/// All lines share the first line's length.
pub open spec fn rect(lv: Seq<Seq<u8>>) -> bool {
    forall|i: int| 0 <= i < lv.len() ==> (#[trigger] lv[i]).len() == width_of(lv)
}

/// The input's rows joined into one flat map.
pub open spec fn flat_of(lv: Seq<Seq<u8>>) -> Seq<u8>
    decreases lv.len(),
{
    if lv.len() == 0 {
        Seq::empty()
    } else {
        flat_of(lv.drop_last()) + lv.last()
    }
}

/// A rectangular input flattens to height times width bytes.
pub proof fn lemma_flat_len(lv: Seq<Seq<u8>>)
    requires
        rect(lv),
    ensures
        flat_of(lv).len() == lv.len() * width_of(lv),
    decreases lv.len(),
{
    if lv.len() > 0 {
        let head = lv.drop_last();
        assert(forall|i: int| 0 <= i < head.len() ==> head[i] == lv[i]);
        assert(rect(head));
        assert(head.len() == 0 || width_of(head) == width_of(lv));
        lemma_flat_len(head);
        assert(flat_of(lv).len() == flat_of(head).len() + lv.last().len());
        assert(lv.last() == lv[lv.len() - 1]);
        assert(lv.last().len() == width_of(lv));
        if head.len() == 0 {
            assert(flat_of(head).len() == 0);
        }
        assert((lv.len() - 1) * width_of(lv) + width_of(lv) == lv.len() * width_of(lv))
            by (nonlinear_arith);
    }
}

/// The byte the grid shows at `(x, y)`: read from the flat
/// map, with everything outside it an empty cell `.`.
pub open spec fn at_spec(f: Seq<u8>, w: int, x: int, y: int) -> u8 {
    if x >= 0 && y >= 0 && x + y * w < f.len() {
        f[x + y * w]
    } else {
        46
    }
}


/// Joins the input's rows into the flat map, checking that every row
/// has the first row's length.
#[verifier::loop_isolation(false)]
pub fn flatten(lines: &Vec<Vec<u8>>) -> (r: Option<Vec<u8>>)
    ensures
        match r {
            Some(f) => rect(views_of(lines@)) && f@ == flat_of(views_of(lines@)),
            None => !rect(views_of(lines@)),
        },
{
    let ghost lv = views_of(lines@);
    let w: usize = if lines.len() == 0 {
        0
    } else {
        lines[0].len()
    };
    proof {
        if lines@.len() > 0 {
            assert(lv[0] == lines@[0]@);
        }
        assert(width_of(lv) == w as int);
        assert(flat_of(lv.take(0)) =~= Seq::<u8>::empty());
    }
    let mut f: Vec<u8> = Vec::new();
    let mut i: usize = 0;
    while i < lines.len()
        invariant
            0 <= i <= lines@.len(),
            f@ == flat_of(lv.take(i as int)),
            forall|t: int| 0 <= t < i ==> (#[trigger] lv[t]).len() == w as int,
            w as int == width_of(lv),
        decreases lines@.len() - i,
    {
        proof {
            assert(lv[i as int] == lines@[i as int]@);
        }
        if lines[i].len() != w {
            return None;
        }
        let line = &lines[i];
        let mut j: usize = 0;
        while j < line.len()
            invariant
                0 <= j <= line@.len(),
                line@ == lines@[i as int]@,
                i < lines@.len(),
                f@ == flat_of(lv.take(i as int)) + lv[i as int].take(j as int),
            decreases line@.len() - j,
        {
            f.push(line[j]);
            proof {
                assert(f@ =~= flat_of(lv.take(i as int)) + lv[i as int].take(j + 1));
            }
            j = j + 1;
        }
        proof {
            assert(lv.take(i + 1).drop_last() =~= lv.take(i as int));
            assert(lv.take(i + 1).last() == lv[i as int]);
            assert(lv[i as int].take(lv[i as int].len() as int) =~= lv[i as int]);
            assert(f@ =~= flat_of(lv.take(i + 1)));
        }
        i = i + 1;
    }
    proof {
        assert(lv.take(lv.len() as int) =~= lv);
    }
    Some(f)
}

} // verus!
