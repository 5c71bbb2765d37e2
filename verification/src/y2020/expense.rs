//! Expense report: among the numbers of the input, find the pairs and
//! triples that sum to a target and report their products, in the
//! order the nested scan meets them.  Lines that are not a plain
//! number are skipped.

use vstd::prelude::*;
use crate::text::{all_digits, digits_val, parse_nums, space_pred, split_spec, split_ws,
    views_of};

verus! {

/// A line contributes a value when it is one whitespace-trimmed
/// number fitting `u64`.
pub open spec fn line_num_ok(l: Seq<u8>) -> bool {
    let ts = split_spec(l, space_pred());
    ts.len() == 1 && ts[0].len() > 0 && all_digits(ts[0]) && digits_val(ts[0]) <= u64::MAX
}

pub open spec fn line_num(l: Seq<u8>) -> int {
    digits_val(split_spec(l, space_pred())[0])
}

/// The values of the readable lines, in input order.
pub open spec fn vals_of(lv: Seq<Seq<u8>>, i: int) -> Seq<int>
    decreases lv.len() - i,
{
    if i < 0 || i >= lv.len() {
        Seq::empty()
    } else {
        (if line_num_ok(lv[i]) {
            seq![line_num(lv[i])]
        } else {
            Seq::empty()
        }) + vals_of(lv, i + 1)
    }
}

/// The products of the pairs summing to `t`, the first index `i`
/// fixed and the second running from `j`.
pub open spec fn pair_prods_from(vs: Seq<int>, t: int, i: int, j: int) -> Seq<int>
    decreases vs.len() - i, vs.len() - j,
{
    if i < 0 || i >= vs.len() || j < i + 1 {
        Seq::empty()
    } else if j >= vs.len() {
        pair_prods_from(vs, t, i + 1, i + 2)
    } else {
        (if vs[i] + vs[j] == t {
            seq![vs[i] * vs[j]]
        } else {
            Seq::empty()
        }) + pair_prods_from(vs, t, i, j + 1)
    }
}

/// All pair products, in scan order.
pub open spec fn pair_prods(vs: Seq<int>, t: int) -> Seq<int> {
    pair_prods_from(vs, t, 0, 1)
}

/// The products a machine list denotes.
pub open spec fn prods_model(v: Seq<u64>) -> Seq<int> {
    Seq::new(v.len(), |k: int| v[k] as int)
}

/// Reads the values of the input lines, skipping unreadable ones.
#[verifier::loop_isolation(false)]
pub fn parse_values(lines: &Vec<Vec<u8>>) -> (r: Vec<u64>)
    ensures
        prods_model(r@) == vals_of(views_of(lines@), 0),
{
    let ghost lv = views_of(lines@);
    let mut r: Vec<u64> = Vec::new();
    let mut i: usize = 0;
    proof {
        assert(prods_model(r@) + vals_of(lv, 0) =~= vals_of(lv, 0));
    }
    while i < lines.len()
        invariant
            0 <= i <= lines@.len(),
            vals_of(lv, 0) == prods_model(r@) + vals_of(lv, i as int),
        decreases lines@.len() - i,
    {
        proof {
            assert(lv[i as int] == lines@[i as int]@);
        }
        let ts = split_ws(&lines[i]);
        if ts.len() == 1 {
            match parse_nums(&ts) {
                Some(ns) => {
                    let ghost pre = prods_model(r@);
                    proof {
                        assert(views_of(ts@)[0] == ts@[0]@);
                    }
                    r.push(ns[0]);
                    proof {
                        assert(prods_model(r@) =~= pre.push(line_num(lv[i as int]))) by {
                            assert(forall|k: int|
                                0 <= k < pre.len() ==> prods_model(r@)[k] == pre[k]);
                        }
                        assert(vals_of(lv, 0) =~= prods_model(r@) + vals_of(lv, i + 1));
                    }
                },
                None => {
                    proof {
                        assert(views_of(ts@)[0] == ts@[0]@);
                        assert(!line_num_ok(lv[i as int]));
                        assert(vals_of(lv, 0) =~= prods_model(r@) + vals_of(lv, i + 1));
                    }
                },
            }
        } else {
            proof {
                assert(vals_of(lv, 0) =~= prods_model(r@) + vals_of(lv, i + 1));
            }
        }
        i = i + 1;
    }
    proof {
        assert(vals_of(lv, lines@.len() as int) =~= Seq::<int>::empty());
        assert(prods_model(r@) =~= vals_of(lv, 0));
    }
    r
}

/// The products of every pair of values summing to the target, in the
/// order the scan meets them.
#[verifier::loop_isolation(false)]
pub fn pair_products(vals: &Vec<u64>, target: u64) -> (r: Vec<u64>)
    requires
        target <= 0x20_0000,
    ensures
        prods_model(r@) == pair_prods(prods_model(vals@), target as int),
{
    let ghost vs = prods_model(vals@);
    let ghost t = target as int;
    let mut r: Vec<u64> = Vec::new();
    let mut i: usize = 0;
    proof {
        assert(prods_model(r@) + pair_prods_from(vs, t, 0, 1) =~= pair_prods_from(vs, t, 0, 1));
    }
    while i < vals.len()
        invariant
            0 <= i <= vals@.len(),
            pair_prods(vs, t) == prods_model(r@) + pair_prods_from(vs, t, i as int, i + 1),
        decreases vals@.len() - i,
    {
        let a = vals[i];
        proof {
            assert(vs[i as int] == a as int);
        }
        let mut j: usize = i + 1;
        while j < vals.len()
            invariant
                i < j <= vals@.len() || j == i + 1,
                i < vals@.len(),
                a == vals@[i as int],
                pair_prods(vs, t) == prods_model(r@) + pair_prods_from(vs, t, i as int, j as int),
            decreases vals@.len() - j,
        {
            let b = vals[j];
            proof {
                assert(vs[j as int] == b as int);
            }
            if a <= target && b == target - a {
                let ghost pre = prods_model(r@);
                proof {
                    assert(a as int * b as int <= 0x20_0000 * 0x20_0000) by (nonlinear_arith)
                        requires
                            0 <= a <= 0x20_0000,
                            0 <= b <= 0x20_0000,
                    ;
                }
                r.push(a * b);
                proof {
                    assert(prods_model(r@) =~= pre.push(vs[i as int] * vs[j as int])) by {
                        assert(forall|k: int|
                            0 <= k < pre.len() ==> prods_model(r@)[k] == pre[k]);
                    }
                    assert(pair_prods(vs, t) =~= prods_model(r@) + pair_prods_from(
                        vs,
                        t,
                        i as int,
                        j + 1,
                    ));
                }
            } else {
                proof {
                    assert(vs[i as int] + vs[j as int] != t);
                    assert(pair_prods(vs, t) =~= prods_model(r@) + pair_prods_from(
                        vs,
                        t,
                        i as int,
                        j + 1,
                    ));
                }
            }
            j = j + 1;
        }
        proof {
            assert(pair_prods_from(vs, t, i as int, vals@.len() as int) == pair_prods_from(
                vs,
                t,
                i + 1,
                i + 2,
            ));
        }
        i = i + 1;
    }
    proof {
        assert(pair_prods_from(vs, t, vals@.len() as int, vals@.len() as int + 1) =~= Seq::<int>::empty());
        assert(prods_model(r@) =~= pair_prods(vs, t));
    }
    r
}

/// The products of the triples summing to `t`.  The nested scan runs
/// the second index relative to the first, and starts the third from
/// the second's relative position plus one — an absolute index, so
/// early thirds can sit before the second pick.
pub open spec fn triple_prods_from(vs: Seq<int>, t: int, i: int, j2: int, k: int) -> Seq<int>
    decreases vs.len() - i, vs.len() - j2, vs.len() - k,
{
    if i < 0 || i >= vs.len() || j2 < 0 || k < j2 + 1 {
        Seq::empty()
    } else if j2 >= vs.len() - i - 1 {
        triple_prods_from(vs, t, i + 1, 0, 1)
    } else if k >= vs.len() {
        triple_prods_from(vs, t, i, j2 + 1, j2 + 2)
    } else {
        (if vs[i] + vs[i + 1 + j2] + vs[k] == t {
            seq![vs[i] * vs[i + 1 + j2] * vs[k]]
        } else {
            Seq::empty()
        }) + triple_prods_from(vs, t, i, j2, k + 1)
    }
}

pub open spec fn triple_prods(vs: Seq<int>, t: int) -> Seq<int> {
    triple_prods_from(vs, t, 0, 0, 1)
}

/// The products of every triple of values summing to the target, in
/// the order the scan meets them.
#[verifier::loop_isolation(false)]
pub fn triple_products(vals: &Vec<u64>, target: u64) -> (r: Vec<u64>)
    requires
        target <= 0x20_0000,
    ensures
        prods_model(r@) == triple_prods(prods_model(vals@), target as int),
{
    let ghost vs = prods_model(vals@);
    let ghost t = target as int;
    let n = vals.len();
    let mut r: Vec<u64> = Vec::new();
    let mut i: usize = 0;
    proof {
        assert(prods_model(r@) + triple_prods_from(vs, t, 0, 0, 1) =~= triple_prods_from(
            vs,
            t,
            0,
            0,
            1,
        ));
    }
    while i < n
        invariant
            0 <= i <= n,
            n == vals@.len(),
            triple_prods(vs, t) == prods_model(r@) + triple_prods_from(vs, t, i as int, 0, 1),
        decreases n - i,
    {
        let a = vals[i];
        proof {
            assert(vs[i as int] == a as int);
        }
        let mut j2: usize = 0;
        while j2 < n - i - 1
            invariant
                0 <= j2,
                i < n,
                n == vals@.len(),
                a == vals@[i as int],
                j2 <= n - i - 1 || j2 == 0,
                triple_prods(vs, t) == prods_model(r@) + triple_prods_from(
                    vs,
                    t,
                    i as int,
                    j2 as int,
                    j2 + 1,
                ),
            decreases n - i - 1 - j2,
        {
            let b = vals[i + 1 + j2];
            proof {
                assert(vs[i + 1 + j2] == b as int);
            }
            let mut k: usize = j2 + 1;
            while k < n
                invariant
                    j2 + 1 <= k,
                    k <= n || k == j2 + 1,
                    i < n,
                    j2 < n - i - 1,
                    n == vals@.len(),
                    a == vals@[i as int],
                    b == vals@[i + 1 + j2],
                    triple_prods(vs, t) == prods_model(r@) + triple_prods_from(
                        vs,
                        t,
                        i as int,
                        j2 as int,
                        k as int,
                    ),
                decreases n - k,
            {
                let c = vals[k];
                proof {
                    assert(vs[k as int] == c as int);
                }
                if a <= target && b <= target - a && c == target - a - b {
                    let ghost pre = prods_model(r@);
                    proof {
                        assert(
                            (a as int) * (b as int) * (c as int) <= 0x20_0000 * 0x20_0000
                                * 0x20_0000) by (nonlinear_arith)
                            requires
                                0 <= a <= 0x20_0000,
                                0 <= b <= 0x20_0000,
                                0 <= c <= 0x20_0000,
                        ;
                        assert(0 <= (a as int) * (b as int) * (c as int)) by (nonlinear_arith)
                            requires
                                0 <= a,
                                0 <= b,
                                0 <= c,
                        ;
                        assert(0 <= (a as int) * (b as int) <= 0x20_0000 * 0x20_0000)
                            by (nonlinear_arith)
                            requires
                                0 <= a <= 0x20_0000,
                                0 <= b <= 0x20_0000,
                        ;
                    }
                    let p = a * b * c;
                    r.push(p);
                    proof {
                        assert(prods_model(r@) =~= pre.push(
                            vs[i as int] * vs[i + 1 + j2] * vs[k as int],
                        )) by {
                            assert(forall|x: int|
                                0 <= x < pre.len() ==> prods_model(r@)[x] == pre[x]);
                        }
                        assert(triple_prods(vs, t) =~= prods_model(r@) + triple_prods_from(
                            vs,
                            t,
                            i as int,
                            j2 as int,
                            k + 1,
                        ));
                    }
                } else {
                    proof {
                        assert(vs[i as int] + vs[i + 1 + j2] + vs[k as int] != t);
                        assert(triple_prods(vs, t) =~= prods_model(r@) + triple_prods_from(
                            vs,
                            t,
                            i as int,
                            j2 as int,
                            k + 1,
                        ));
                    }
                }
                k = k + 1;
            }
            proof {
                assert(triple_prods_from(vs, t, i as int, j2 as int, n as int)
                    == triple_prods_from(vs, t, i as int, j2 + 1, j2 + 2));
            }
            j2 = j2 + 1;
        }
        proof {
            assert(triple_prods_from(vs, t, i as int, j2 as int, j2 + 1) == triple_prods_from(
                vs,
                t,
                i + 1,
                0,
                1,
            ));
        }
        i = i + 1;
    }
    proof {
        assert(triple_prods_from(vs, t, n as int, 0, 1) =~= Seq::<int>::empty());
        assert(prods_model(r@) =~= triple_prods(vs, t));
    }
    r
}

} // verus!
