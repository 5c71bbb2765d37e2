//! Luggage rules: each line names a bag and the bags it contains.
//! A single pass over the rules grows the set of bags known to hold
//! the shiny gold bag, directly or through a bag already in the set —
//! one pass catches only the chains the input order happens to allow.

use vstd::prelude::*;
use crate::text::{
    all_digits, digits_val, is_space, split_spec, split_ws, space_pred, subvec, views_of,
};

verus! {

/// The separator `bags contain` as bytes.
pub open spec fn sep_word() -> Seq<u8> {
    seq![98u8, 97u8, 103u8, 115u8, 32u8, 99u8, 111u8, 110u8, 116u8, 97u8, 105u8, 110u8]
}

/// Does the separator occur at `i`?
pub open spec fn sep_at(l: Seq<u8>, i: int) -> bool {
    0 <= i && i + 12 <= l.len() && l.subrange(i, i + 12) == sep_word()
}

/// The first separator position, or the length plus one when none.
pub open spec fn first_sep(l: Seq<u8>, i: int) -> int
    decreases l.len() - i,
{
    if i < 0 || i + 12 > l.len() {
        l.len() as int + 1
    } else if sep_at(l, i) {
        i
    } else {
        first_sep(l, i + 1)
    }
}

/// The line names a containing bag.
pub open spec fn has_sep(l: Seq<u8>) -> bool {
    first_sep(l, 0) <= l.len() - 12
}

/// The first non-space index, or the length.
pub open spec fn first_ns(s: Seq<u8>) -> int
    decreases s.len(),
{
    if s.len() == 0 {
        0
    } else if !is_space(s[0]) {
        0
    } else {
        1 + first_ns(s.drop_first())
    }
}

/// The last non-space index, or `-1`.
pub open spec fn last_ns(s: Seq<u8>) -> int
    decreases s.len(),
{
    if s.len() == 0 {
        -1
    } else if !is_space(s.last()) {
        s.len() - 1
    } else {
        last_ns(s.drop_last())
    }
}

/// `s` with its leading and trailing spaces removed.
pub open spec fn trim_of(s: Seq<u8>) -> Seq<u8> {
    if first_ns(s) >= s.len() {
        Seq::empty()
    } else {
        s.subrange(first_ns(s), last_ns(s) + 1)
    }
}

/// A token is a plain number fitting `u64`.
pub open spec fn tok_num(t: Seq<u8>) -> bool {
    t.len() > 0 && all_digits(t) && digits_val(t) <= u64::MAX
}

/// The contained bags of the token list from window `k` on: each
/// window of four tokens starting with a number names a bag by its
/// next two tokens.
pub open spec fn kids_from(ts: Seq<Seq<u8>>, k: int) -> Seq<Seq<u8>>
    decreases ts.len() - k,
{
    if k < 0 || k + 4 > ts.len() {
        Seq::empty()
    } else {
        (if tok_num(ts[k]) {
            seq![ts[k + 1] + seq![32u8] + ts[k + 2]]
        } else {
            Seq::empty()
        }) + kids_from(ts, k + 1)
    }
}

/// The containing bag of a rule line.
pub open spec fn parent_of(l: Seq<u8>) -> Seq<u8> {
    trim_of(l.take(first_sep(l, 0)))
}

/// The contained bags of a rule line.
pub open spec fn kids_of(l: Seq<u8>) -> Seq<Seq<u8>> {
    kids_from(split_spec(l.skip(first_sep(l, 0) + 12), space_pred()), 0)
}

proof fn lemma_first_sep_char(l: Seq<u8>, i: int)
    requires
        0 <= i <= l.len(),
        forall|j: int| 0 <= j < i ==> !sep_at(l, j),
        i + 12 > l.len() || sep_at(l, i),
    ensures
        first_sep(l, 0) == (if i + 12 <= l.len() {
            i
        } else {
            l.len() as int + 1
        }),
    decreases i,
{
    lemma_first_sep_scan(l, 0, i);
}

proof fn lemma_first_sep_scan(l: Seq<u8>, a: int, i: int)
    requires
        0 <= a <= i <= l.len(),
        forall|j: int| a <= j < i ==> !sep_at(l, j),
        i + 12 > l.len() || sep_at(l, i),
    ensures
        first_sep(l, a) == (if i + 12 <= l.len() {
            i
        } else {
            l.len() as int + 1
        }),
    decreases i - a,
{
    if a < i {
        lemma_first_sep_scan(l, a + 1, i);
    }
}

proof fn lemma_first_ns_char(s: Seq<u8>, i: int)
    requires
        0 <= i <= s.len(),
        forall|j: int| 0 <= j < i ==> is_space(s[j]),
        i == s.len() || !is_space(s[i]),
    ensures
        first_ns(s) == i,
    decreases i,
{
    if s.len() > 0 && is_space(s[0]) {
        assert(forall|j: int| 0 <= j < i - 1 ==> s.drop_first()[j] == s[j + 1]);
        lemma_first_ns_char(s.drop_first(), i - 1);
    }
}

proof fn lemma_last_ns_char(s: Seq<u8>, i: int)
    requires
        -1 <= i < s.len(),
        forall|j: int| i < j < s.len() ==> is_space(s[j]),
        i == -1 || !is_space(s[i]),
    ensures
        last_ns(s) == i,
    decreases s.len(),
{
    if s.len() > 0 && is_space(s.last()) {
        lemma_last_ns_char(s.drop_last(), i);
    }
}

/// Strips leading and trailing spaces.
#[verifier::loop_isolation(false)]
fn trim_exec(s: &Vec<u8>) -> (r: Vec<u8>)
    ensures
        r@ == trim_of(s@),
{
    let n = s.len();
    let mut a: usize = 0;
    while a < n && (s[a] == 32 || s[a] == 9)
        invariant
            0 <= a <= n,
            forall|j: int| 0 <= j < a ==> is_space(s@[j]),
        decreases n - a,
    {
        a = a + 1;
    }
    proof {
        lemma_first_ns_char(s@, a as int);
    }
    if a == n {
        let r: Vec<u8> = Vec::new();
        proof {
            assert(r@ =~= trim_of(s@));
        }
        return r;
    }
    let mut b: usize = n;
    while b > a + 1 && (s[b - 1] == 32 || s[b - 1] == 9)
        invariant
            a < b <= n,
            forall|j: int| b <= j < n ==> is_space(s@[j]),
        decreases b,
    {
        b = b - 1;
    }
    proof {
        assert(!is_space(s@[b - 1]));
        lemma_last_ns_char(s@, b - 1);
    }
    subvec(s, a, b)
}

/// Reads one rule line into its containing bag and contained bags.
///
/// Returns them exactly when the line holds the separator, and `None`
/// otherwise.
#[verifier::loop_isolation(false)]
pub fn get_bags(line: &Vec<u8>) -> (r: Option<(Vec<u8>, Vec<Vec<u8>>)>)
    ensures
        match r {
            Some((parent, kids)) => has_sep(line@) && parent@ == parent_of(line@) && views_of(
                kids@,
            ) == kids_of(line@),
            None => !has_sep(line@),
        },
{
    let n = line.len();
    // find the separator
    let mut i: usize = 0;
    let mut found = false;
    while !found && n >= 12 && i <= n - 12
        invariant
            0 <= i,
            i <= n || i == 0,
            n == line@.len(),
            forall|j: int| 0 <= j < i ==> !sep_at(line@, j),
            found ==> sep_at(line@, i as int) && i + 12 <= n,
        decreases n - i + (if found { 0int } else { 1int }),
    {
        if line[i] == 98 && line[i + 1] == 97 && line[i + 2] == 103 && line[i + 3] == 115 && line[i
            + 4] == 32 && line[i + 5] == 99 && line[i + 6] == 111 && line[i + 7] == 110 && line[i
            + 8] == 116 && line[i + 9] == 97 && line[i + 10] == 105 && line[i + 11] == 110 {
            proof {
                assert(line@.subrange(i as int, i + 12) =~= sep_word());
            }
            found = true;
        } else {
            proof {
                assert(!sep_at(line@, i as int)) by {
                    if sep_at(line@, i as int) {
                        assert(line@.subrange(i as int, i + 12)[0] == line@[i as int]);
                        assert(line@.subrange(i as int, i + 12)[1] == line@[i + 1]);
                        assert(line@.subrange(i as int, i + 12)[2] == line@[i + 2]);
                        assert(line@.subrange(i as int, i + 12)[3] == line@[i + 3]);
                        assert(line@.subrange(i as int, i + 12)[4] == line@[i + 4]);
                        assert(line@.subrange(i as int, i + 12)[5] == line@[i + 5]);
                        assert(line@.subrange(i as int, i + 12)[6] == line@[i + 6]);
                        assert(line@.subrange(i as int, i + 12)[7] == line@[i + 7]);
                        assert(line@.subrange(i as int, i + 12)[8] == line@[i + 8]);
                        assert(line@.subrange(i as int, i + 12)[9] == line@[i + 9]);
                        assert(line@.subrange(i as int, i + 12)[10] == line@[i + 10]);
                        assert(line@.subrange(i as int, i + 12)[11] == line@[i + 11]);
                    }
                }
            }
            i = i + 1;
        }
    }
    if !found {
        proof {
            lemma_first_sep_char(line@, i as int);
        }
        return None;
    }
    proof {
        lemma_first_sep_char(line@, i as int);
    }
    let parent_raw = subvec(line, 0, i);
    proof {
        assert(parent_raw@ =~= line@.take(i as int));
    }
    let parent = trim_exec(&parent_raw);
    let rest = subvec(line, i + 12, n);
    proof {
        assert(rest@ =~= line@.skip(i + 12));
    }
    let toks = split_ws(&rest);
    let ghost tv = split_spec(rest@, space_pred());
    // each window of four tokens starting with a number names a bag
    let mut kids: Vec<Vec<u8>> = Vec::new();
    let mut k: usize = 0;
    proof {
        assert(views_of(kids@) + kids_from(tv, 0) =~= kids_from(tv, 0));
    }
    while toks.len() >= 4 && k <= toks.len() - 4
        invariant
            0 <= k,
            k <= toks@.len() || k == 0,
            tv == views_of(toks@),
            kids_from(tv, 0) == views_of(kids@) + kids_from(tv, k as int),
        decreases toks@.len() - k,
    {
        proof {
            assert(views_of(toks@)[k as int] == toks@[k as int]@);
            assert(views_of(toks@)[k + 1] == toks@[k + 1]@);
            assert(views_of(toks@)[k + 2] == toks@[k + 2]@);
        }
        let is_num = match crate::text::parse_u64(&toks[k]) {
            Some(_) => true,
            None => false,
        };
        if is_num {
            let mut bag = subvec(&toks[k + 1], 0, toks[k + 1].len());
            bag.push(32);
            let m2 = toks[k + 2].len();
            let mut x: usize = 0;
            let ghost mid = bag@;
            while x < m2
                invariant
                    0 <= x <= m2,
                    m2 == toks@[k + 2]@.len(),
                    k + 2 < toks@.len(),
                    bag@ == mid + toks@[k + 2]@.take(x as int),
                decreases m2 - x,
            {
                bag.push(toks[k + 2][x]);
                proof {
                    assert(bag@ =~= mid + toks@[k + 2]@.take(x + 1));
                }
                x = x + 1;
            }
            let ghost pre = views_of(kids@);
            proof {
                assert(bag@ =~= tv[k + 1] + seq![32u8] + tv[k + 2]);
            }
            kids.push(bag);
            proof {
                assert(views_of(kids@) =~= pre.push(tv[k + 1] + seq![32u8] + tv[k + 2])) by {
                    assert(forall|t: int|
                        0 <= t < pre.len() ==> views_of(kids@)[t] == pre[t]);
                }
                assert(kids_from(tv, 0) =~= views_of(kids@) + kids_from(tv, k + 1));
            }
        } else {
            proof {
                assert(!tok_num(tv[k as int]));
                assert(kids_from(tv, 0) =~= views_of(kids@) + kids_from(tv, k + 1));
            }
        }
        k = k + 1;
    }
    proof {
        assert(kids_from(tv, k as int) =~= Seq::<Seq<u8>>::empty());
        assert(views_of(kids@) =~= kids_from(tv, 0));
    }
    Some((parent, kids))
}

/// Is the bag already in the set?
#[verifier::loop_isolation(false)]
fn set_contains(s: &Vec<Vec<u8>>, bag: &Vec<u8>) -> (r: bool)
    ensures
        r == seq_has(views_of(s@), bag@),
{
    let ghost sv = views_of(s@);
    let mut t: usize = 0;
    while t < s.len()
        invariant
            0 <= t <= s@.len(),
            forall|x: int| 0 <= x < t ==> #[trigger] sv[x] != bag@,
        decreases s@.len() - t,
    {
        proof {
            assert(sv[t as int] == s@[t as int]@);
        }
        if s[t].len() == bag.len() {
            let mut eq = true;
            let mut x: usize = 0;
            while x < bag.len()
                invariant
                    0 <= x <= bag@.len(),
                    t < s@.len(),
                    s@[t as int]@.len() == bag@.len(),
                    eq == forall|y: int| 0 <= y < x ==> s@[t as int]@[y] == bag@[y],
                decreases bag@.len() - x,
            {
                if s[t][x] != bag[x] {
                    eq = false;
                }
                x = x + 1;
            }
            if eq {
                proof {
                    assert(sv[t as int] =~= bag@);
                }
                return true;
            }
            proof {
                assert(sv[t as int] != bag@);
            }
        } else {
            proof {
                assert(sv[t as int] != bag@);
            }
        }
        t = t + 1;
    }
    false
}

/// Does the set hold this bag?
pub open spec fn seq_has(s: Seq<Seq<u8>>, bag: Seq<u8>) -> bool {
    exists|t: int| 0 <= t < s.len() && #[trigger] s[t] == bag
}

/// One rule applied to the set: the parent joins when it holds a bag
/// already in the set.
pub open spec fn fill_step(s: Seq<Seq<u8>>, l: Seq<u8>) -> Seq<Seq<u8>> {
    if has_sep(l) && (exists|t: int|
        0 <= t < kids_of(l).len() && seq_has(s, #[trigger] kids_of(l)[t])) && !seq_has(
        s,
        parent_of(l),
    ) {
        s.push(parent_of(l))
    } else {
        s
    }
}

/// The set after one pass over the rules from line `i` on.
pub open spec fn fill_from(lv: Seq<Seq<u8>>, i: int, s: Seq<Seq<u8>>) -> Seq<Seq<u8>>
    decreases lv.len() - i,
{
    if i < 0 || i >= lv.len() {
        s
    } else {
        fill_from(lv, i + 1, fill_step(s, lv[i]))
    }
}

/// The shiny gold bag's name.
pub open spec fn gold() -> Seq<u8> {
    seq![
        115u8, 104u8, 105u8, 110u8, 121u8, 32u8, 103u8, 111u8, 108u8, 100u8,
    ]
}

/// One pass over the rules: starting from the shiny gold bag, every
/// rule whose contained bags already meet the set adds its container.
/// A single pass only catches the chains the input order allows.
#[verifier::loop_isolation(false)]
pub fn bags_after_pass(lines: &Vec<Vec<u8>>) -> (r: Vec<Vec<u8>>)
    ensures
        views_of(r@) == fill_from(views_of(lines@), 0, seq![gold()]),
{
    let ghost lv = views_of(lines@);
    let mut s: Vec<Vec<u8>> = Vec::new();
    let mut g: Vec<u8> = Vec::new();
    g.push(115);
    g.push(104);
    g.push(105);
    g.push(110);
    g.push(121);
    g.push(32);
    g.push(103);
    g.push(111);
    g.push(108);
    g.push(100);
    proof {
        assert(g@ =~= gold());
    }
    s.push(g);
    proof {
        assert(views_of(s@) =~= seq![gold()]);
    }
    let mut i: usize = 0;
    while i < lines.len()
        invariant
            0 <= i <= lines@.len(),
            fill_from(lv, 0, seq![gold()]) == fill_from(lv, i as int, views_of(s@)),
        decreases lines@.len() - i,
    {
        proof {
            assert(lv[i as int] == lines@[i as int]@);
        }
        let ghost sv0 = views_of(s@);
        match get_bags(&lines[i]) {
            Some((parent, kids)) => {
                let mut hit = false;
                let mut t: usize = 0;
                while t < kids.len()
                    invariant
                        0 <= t <= kids@.len(),
                        views_of(kids@) == kids_of(lv[i as int]),
                        hit ==> exists|x: int|
                            0 <= x < kids_of(lv[i as int]).len() && seq_has(
                                views_of(s@),
                                #[trigger] kids_of(lv[i as int])[x],
                            ),
                        !hit ==> forall|x: int|
                            0 <= x < t ==> !seq_has(
                                views_of(s@),
                                #[trigger] kids_of(lv[i as int])[x],
                            ),
                    decreases kids@.len() - t,
                {
                    proof {
                        assert(views_of(kids@)[t as int] == kids@[t as int]@);
                    }
                    if set_contains(&s, &kids[t]) {
                        hit = true;
                    }
                    t = t + 1;
                }
                if hit {
                    if !set_contains(&s, &parent) {
                        s.push(parent);
                        proof {
                            assert(views_of(s@) =~= sv0.push(parent_of(lv[i as int]))) by {
                                assert(forall|x: int|
                                    0 <= x < sv0.len() ==> views_of(s@)[x] == sv0[x]);
                            }
                        }
                    }
                }
                proof {
                    assert(views_of(s@) == fill_step(sv0, lv[i as int]));
                }
            },
            None => {
                proof {
                    assert(views_of(s@) == fill_step(sv0, lv[i as int]));
                }
            },
        }
        proof {
            assert(fill_from(lv, i as int, sv0) == fill_from(lv, i + 1, views_of(s@)));
        }
        i = i + 1;
    }
    s
}

} // verus!
