//! Byte-level text helpers shared by the puzzle solvers: classifying
//! bytes, reading unsigned decimal numbers, locating bytes, and splitting
//! a line into whitespace-separated tokens.

use vstd::prelude::*;

verus! {

/// An ASCII space or tab, the separators used by the puzzle inputs.
pub open spec fn is_space(b: u8) -> bool {
    b == 32 || b == 9
}

/// An ASCII decimal digit.
pub open spec fn is_digit(b: u8) -> bool {
    48 <= b <= 57
}

/// Every byte of `s` is an ASCII decimal digit.
pub open spec fn all_digits(s: Seq<u8>) -> bool {
    forall|i: int| 0 <= i < s.len() ==> is_digit(s[i])
}

/// The number denoted by the digit string `s`, read most significant
/// digit first.  Meaningful only when `all_digits(s)` holds.
pub open spec fn digits_val(s: Seq<u8>) -> int
    decreases s.len(),
{
    if s.len() == 0 {
        0
    } else {
        digits_val(s.drop_last()) * 10 + (s.last() - 48)
    }
}

/// A nonempty all-digit string denotes a value; `digits_val` is that
/// value and it is nonnegative.
pub proof fn lemma_digits_val_nonneg(s: Seq<u8>)
    requires
        all_digits(s),
    ensures
        digits_val(s) >= 0,
    decreases s.len(),
{
    if s.len() > 0 {
        assert(all_digits(s.drop_last())) by {
            assert(forall|i: int| 0 <= i < s.len() - 1 ==> s.drop_last()[i] == s[i]);
        }
        lemma_digits_val_nonneg(s.drop_last());
    }
}

/// Reads `s` as an unsigned decimal number.
///
/// Returns the value exactly when `s` is nonempty, all digits, and the
/// value fits in `u64`; returns `None` otherwise.
pub fn parse_u64(s: &Vec<u8>) -> (r: Option<u64>)
    ensures
        match r {
            Some(v) => s@.len() > 0 && all_digits(s@) && v == digits_val(s@),
            None => s@.len() == 0 || !all_digits(s@) || digits_val(s@) > u64::MAX,
        },
{
    if s.len() == 0 {
        return None;
    }
    let mut acc: u64 = 0;
    let mut i: usize = 0;
    while i < s.len()
        invariant
            0 <= i <= s@.len(),
            all_digits(s@.take(i as int)),
            acc == digits_val(s@.take(i as int)),
        decreases s@.len() - i,
    {
        let b = s[i];
        if b < 48 || b > 57 {
            assert(!is_digit(s@[i as int]));
            return None;
        }
        let d: u64 = (b - 48) as u64;
        if acc > (u64::MAX - d) / 10 {
            proof {
                if all_digits(s@) {
                    lemma_digits_val_grows(s@, i as int);
                }
            }
            return None;
        }
        proof {
            assert(s@.take(i + 1).drop_last() =~= s@.take(i as int));
            assert(s@.take(i + 1).last() == s@[i as int]);
        }
        acc = acc * 10 + d;
        i = i + 1;
    }
    proof {
        assert(s@.take(s@.len() as int) =~= s@);
    }
    Some(acc)
}

/// If the prefix of `s` up to `i` already denotes more than
/// `(u64::MAX - d) / 10` (with `d` the next digit), the whole string
/// denotes more than `u64::MAX`.
proof fn lemma_digits_val_grows(s: Seq<u8>, i: int)
    requires
        0 <= i < s.len(),
        all_digits(s),
        digits_val(s.take(i)) * 10 + (s[i] - 48) > u64::MAX,
    ensures
        digits_val(s) > u64::MAX,
    decreases s.len() - i,
{
    assert(s.take(i + 1).drop_last() =~= s.take(i));
    assert(s.take(i + 1).last() == s[i]);
    if i + 1 == s.len() {
        assert(s.take(i + 1) =~= s);
    } else {
        assert(all_digits(s.take(i + 1)));
        assert(digits_val(s.take(i + 1)) > u64::MAX);
        assert(digits_val(s.take(i + 1) ) * 10 + (s[i + 1] - 48) > u64::MAX);
        lemma_digits_val_grows(s, i + 1);
    }
}

/// The first position at or after `from` where byte `b` occurs in `s`,
/// or `None` when `b` does not occur there.
pub fn find_byte(s: &Vec<u8>, from: usize, b: u8) -> (r: Option<usize>)
    requires
        from <= s@.len(),
    ensures
        match r {
            Some(i) => from <= i < s@.len() && s@[i as int] == b && forall|j: int|
                from <= j < i ==> s@[j] != b,
            None => forall|j: int| from <= j < s@.len() ==> s@[j] != b,
        },
{
    let mut i: usize = from;
    while i < s.len()
        invariant
            from <= i <= s@.len(),
            forall|j: int| from <= j < i ==> s@[j] != b,
        decreases s@.len() - i,
    {
        if s[i] == b {
            return Some(i);
        }
        i = i + 1;
    }
    None
}

/// A fresh copy of `s[start..end]`.
pub fn subvec(s: &Vec<u8>, start: usize, end: usize) -> (r: Vec<u8>)
    requires
        start <= end <= s@.len(),
    ensures
        r@ == s@.subrange(start as int, end as int),
{
    let mut r: Vec<u8> = Vec::new();
    let mut i: usize = start;
    while i < end
        invariant
            start <= i <= end <= s@.len(),
            r@ == s@.subrange(start as int, i as int),
        decreases end - i,
    {
        r.push(s[i]);
        proof {
            assert(r@ =~= s@.subrange(start as int, i + 1));
        }
        i = i + 1;
    }
    r
}

/// The mathematical integers of a sequence of machine integers.
pub open spec fn ints_of(s: Seq<i64>) -> Seq<int> {
    Seq::new(s.len(), |i: int| s[i] as int)
}

/// The views of a sequence of byte vectors.
pub open spec fn views_of(vs: Seq<Vec<u8>>) -> Seq<Seq<u8>> {
    Seq::new(vs.len(), |i: int| vs[i]@)
}

/// Separator predicate for whitespace splitting.
pub open spec fn space_pred() -> spec_fn(u8) -> bool {
    |b: u8| is_space(b)
}

/// Separator predicate for splitting on one given byte.
pub open spec fn byte_pred(c: u8) -> spec_fn(u8) -> bool {
    |b: u8| b == c
}

/// Length of the leading run of non-separator bytes of `s`.
pub open spec fn run_len(s: Seq<u8>, sep: spec_fn(u8) -> bool) -> int
    decreases s.len(),
{
    if s.len() == 0 || sep(s[0]) {
        0
    } else {
        1 + run_len(s.drop_first(), sep)
    }
}

pub proof fn lemma_run_len_bounds(s: Seq<u8>, sep: spec_fn(u8) -> bool)
    ensures
        0 <= run_len(s, sep) <= s.len(),
    decreases s.len(),
{
    if s.len() > 0 && !sep(s[0]) {
        lemma_run_len_bounds(s.drop_first(), sep);
    }
}

/// The maximal non-separator runs of `s`, in order; separator bytes are
/// dropped and empty runs do not appear.
pub open spec fn split_spec(s: Seq<u8>, sep: spec_fn(u8) -> bool) -> Seq<Seq<u8>>
    decreases s.len(),
    via split_spec_decreases
{
    if s.len() == 0 {
        Seq::empty()
    } else if sep(s[0]) {
        split_spec(s.drop_first(), sep)
    } else {
        seq![s.take(run_len(s, sep))] + split_spec(s.skip(run_len(s, sep)), sep)
    }
}

#[via_fn]
proof fn split_spec_decreases(s: Seq<u8>, sep: spec_fn(u8) -> bool) {
    lemma_run_len_bounds(s, sep);
    if s.len() > 0 && !sep(s[0]) {
        lemma_run_len_bounds(s.drop_first(), sep);
        assert(run_len(s, sep) >= 1);
    }
}

/// Dropping a leading separator byte does not change the splitting.
proof fn lemma_split_skip_sep(s: Seq<u8>, i: int, sep: spec_fn(u8) -> bool)
    requires
        0 <= i < s.len(),
        sep(s[i]),
    ensures
        split_spec(s.skip(i), sep) == split_spec(s.skip(i + 1), sep),
{
    assert(s.skip(i).drop_first() =~= s.skip(i + 1));
}

/// A leading non-separator byte lengthens the leading run by one.
proof fn lemma_run_step(s: Seq<u8>, i: int, sep: spec_fn(u8) -> bool)
    requires
        0 <= i < s.len(),
        !sep(s[i]),
    ensures
        run_len(s.skip(i), sep) == 1 + run_len(s.skip(i + 1), sep),
{
    assert(s.skip(i).drop_first() =~= s.skip(i + 1));
}

/// When the bytes of `s[i..j]` form exactly the leading run of
/// `s[i..]`, that run is the next token.
proof fn lemma_split_token(s: Seq<u8>, i: int, j: int, sep: spec_fn(u8) -> bool)
    requires
        0 <= i < j <= s.len(),
        run_len(s.skip(i), sep) == j - i,
    ensures
        split_spec(s.skip(i), sep) == seq![s.subrange(i, j)] + split_spec(s.skip(j), sep),
{
    assert(!sep(s.skip(i)[0]));
    assert(s.skip(i).take(j - i) =~= s.subrange(i, j));
    assert(s.skip(i).skip(j - i) =~= s.skip(j));
}

/// Splits `s` into its maximal whitespace-separated tokens.
pub fn split_ws(s: &Vec<u8>) -> (r: Vec<Vec<u8>>)
    ensures
        views_of(r@) == split_spec(s@, space_pred()),
{
    let ghost sep = space_pred();
    let mut r: Vec<Vec<u8>> = Vec::new();
    let mut i: usize = 0;
    proof {
        assert(s@.skip(0) =~= s@);
    }
    while i < s.len()
        invariant
            0 <= i <= s@.len(),
            split_spec(s@, sep) == views_of(r@) + split_spec(s@.skip(i as int), sep),
            sep == space_pred(),
        decreases s@.len() - i,
    {
        let b = s[i];
        if b == 32 || b == 9 {
            proof {
                lemma_split_skip_sep(s@, i as int, sep);
            }
            i = i + 1;
        } else {
            let start = i;
            proof {
                lemma_run_step(s@, i as int, sep);
            }
            i = i + 1;
            while i < s.len() && !(s[i] == 32 || s[i] == 9)
                invariant
                    0 <= start < i <= s@.len(),
                    run_len(s@.skip(start as int), sep) == (i - start) + run_len(
                        s@.skip(i as int),
                        sep,
                    ),
                    sep == space_pred(),
                decreases s@.len() - i,
            {
                proof {
                    lemma_run_step(s@, i as int, sep);
                }
                i = i + 1;
            }
            proof {
                if i < s@.len() {
                    assert(sep(s@.skip(i as int)[0]));
                }
                assert(run_len(s@.skip(i as int), sep) == 0);
                lemma_split_token(s@, start as int, i as int, sep);
            }
            let tok = subvec(s, start, i);
            r.push(tok);
            proof {
                assert(views_of(r@) =~= views_of(r@.drop_last()) + seq![s@.subrange(
                    start as int,
                    i as int,
                )]);
            }
        }
    }
    proof {
        assert(split_spec(s@.skip(s@.len() as int), sep) =~= Seq::<Seq<u8>>::empty());
        assert(views_of(r@) =~= views_of(r@) + split_spec(s@.skip(s@.len() as int), sep));
    }
    r
}

/// Splits `s` on the byte `c`, keeping the maximal runs between
/// occurrences of `c`; empty runs are dropped.
pub fn split_sep(s: &Vec<u8>, c: u8) -> (r: Vec<Vec<u8>>)
    ensures
        views_of(r@) == split_spec(s@, byte_pred(c)),
{
    let ghost sep = byte_pred(c);
    let mut r: Vec<Vec<u8>> = Vec::new();
    let mut i: usize = 0;
    proof {
        assert(s@.skip(0) =~= s@);
    }
    while i < s.len()
        invariant
            0 <= i <= s@.len(),
            split_spec(s@, sep) == views_of(r@) + split_spec(s@.skip(i as int), sep),
            sep == byte_pred(c),
        decreases s@.len() - i,
    {
        let b = s[i];
        if b == c {
            proof {
                lemma_split_skip_sep(s@, i as int, sep);
            }
            i = i + 1;
        } else {
            let start = i;
            proof {
                lemma_run_step(s@, i as int, sep);
            }
            i = i + 1;
            while i < s.len() && s[i] != c
                invariant
                    0 <= start < i <= s@.len(),
                    run_len(s@.skip(start as int), sep) == (i - start) + run_len(
                        s@.skip(i as int),
                        sep,
                    ),
                    sep == byte_pred(c),
                decreases s@.len() - i,
            {
                proof {
                    lemma_run_step(s@, i as int, sep);
                }
                i = i + 1;
            }
            proof {
                if i < s@.len() {
                    assert(sep(s@.skip(i as int)[0]));
                }
                assert(run_len(s@.skip(i as int), sep) == 0);
                lemma_split_token(s@, start as int, i as int, sep);
            }
            let tok = subvec(s, start, i);
            r.push(tok);
            proof {
                assert(views_of(r@) =~= views_of(r@.drop_last()) + seq![s@.subrange(
                    start as int,
                    i as int,
                )]);
            }
        }
    }
    proof {
        assert(split_spec(s@.skip(s@.len() as int), sep) =~= Seq::<Seq<u8>>::empty());
        assert(views_of(r@) =~= views_of(r@) + split_spec(s@.skip(s@.len() as int), sep));
    }
    r
}

/// The index of the first colon of `l`, or `l.len()` when there is none.
pub open spec fn colon_idx(l: Seq<u8>) -> int
    decreases l.len(),
{
    if l.len() == 0 {
        0
    } else if l[0] == 58 {
        0
    } else {
        1 + colon_idx(l.drop_first())
    }
}

pub open spec fn has_colon(l: Seq<u8>) -> bool {
    colon_idx(l) < l.len()
}

/// `colon_idx` is the position of the first colon.
pub proof fn lemma_colon_idx(l: Seq<u8>, i: int)
    requires
        0 <= i <= l.len(),
        forall|j: int| 0 <= j < i ==> l[j] != 58,
        i == l.len() || l[i] == 58,
    ensures
        colon_idx(l) == i,
    decreases i,
{
    if l.len() > 0 && l[0] != 58 {
        assert(forall|j: int| 0 <= j < i - 1 ==> l.drop_first()[j] == l[j + 1]);
        lemma_colon_idx(l.drop_first(), i - 1);
    }
}

/// The whitespace-separated tokens after the first colon of `l`.
pub open spec fn colon_tokens(l: Seq<u8>) -> Seq<Seq<u8>> {
    split_spec(l.skip(colon_idx(l) + 1), space_pred())
}

/// Splits the part of `l` after its first colon into tokens.
///
/// Returns the tokens exactly when `l` has a colon, and `None`
/// otherwise.
pub fn tokens_after_colon(l: &Vec<u8>) -> (r: Option<Vec<Vec<u8>>>)
    ensures
        match r {
            Some(ts) => has_colon(l@) && views_of(ts@) == colon_tokens(l@),
            None => !has_colon(l@),
        },
{
    match find_byte(l, 0, 58) {
        None => {
            proof {
                lemma_colon_idx(l@, l@.len() as int);
            }
            None
        },
        Some(ci) => {
            proof {
                lemma_colon_idx(l@, ci as int);
            }
            let n = l.len();
            let rest = subvec(l, ci + 1, n);
            proof {
                assert(rest@ =~= l@.skip(ci + 1));
            }
            Some(split_ws(&rest))
        },
    }
}

/// Every token a split yields is nonempty.
pub proof fn lemma_split_tokens_nonempty(s: Seq<u8>, sep: spec_fn(u8) -> bool)
    ensures
        forall|t: int|
            0 <= t < split_spec(s, sep).len() ==> (#[trigger] split_spec(s, sep)[t]).len() > 0,
    decreases s.len(),
{
    lemma_run_len_bounds(s, sep);
    if s.len() == 0 {
    } else if sep(s[0]) {
        lemma_split_tokens_nonempty(s.drop_first(), sep);
        assert forall|t: int|
            0 <= t < split_spec(s, sep).len() implies (#[trigger] split_spec(s, sep)[t]).len()
            > 0 by {
            assert(split_spec(s, sep)[t] == split_spec(s.drop_first(), sep)[t]);
        }
    } else {
        lemma_run_len_bounds(s.drop_first(), sep);
        lemma_split_tokens_nonempty(s.skip(run_len(s, sep)), sep);
        assert forall|t: int|
            0 <= t < split_spec(s, sep).len() implies (#[trigger] split_spec(s, sep)[t]).len()
            > 0 by {
            if t == 0 {
                assert(split_spec(s, sep)[0] == s.take(run_len(s, sep)));
            } else {
                assert(split_spec(s, sep)[t] == split_spec(s.skip(run_len(s, sep)), sep)[t - 1]);
            }
        }
    }
}

/// Every token is a nonempty digit string whose value fits in `u64`.
pub open spec fn nums_ok(ts: Seq<Seq<u8>>) -> bool {
    forall|k: int|
        0 <= k < ts.len() ==> ts[k].len() > 0 && all_digits(ts[k]) && digits_val(ts[k])
            <= u64::MAX
}

/// The numbers denoted by a list of digit-string tokens.
pub open spec fn nums_of(ts: Seq<Seq<u8>>) -> Seq<int> {
    Seq::new(ts.len(), |k: int| digits_val(ts[k]))
}

/// Parses each token as an unsigned decimal number.
///
/// Returns the values exactly when every token is a nonempty digit
/// string fitting in `u64`, and `None` otherwise.
pub fn parse_nums(ts: &Vec<Vec<u8>>) -> (r: Option<Vec<u64>>)
    ensures
        match r {
            Some(v) => nums_ok(views_of(ts@)) && v@.len() == ts@.len() && forall|k: int|
                0 <= k < v@.len() ==> v@[k] == digits_val(ts@[k]@),
            None => !nums_ok(views_of(ts@)),
        },
{
    let mut v: Vec<u64> = Vec::new();
    let mut k: usize = 0;
    while k < ts.len()
        invariant
            0 <= k <= ts@.len(),
            v@.len() == k,
            forall|j: int| 0 <= j < k ==> ts@[j]@.len() > 0 && all_digits(ts@[j]@)
                && digits_val(ts@[j]@) <= u64::MAX,
            forall|j: int| 0 <= j < k ==> v@[j] == digits_val(ts@[j]@),
        decreases ts@.len() - k,
    {
        match parse_u64(&ts[k]) {
            Some(n) => {
                proof {
                    lemma_digits_val_nonneg(ts@[k as int]@);
                }
                v.push(n);
            },
            None => {
                assert(!nums_ok(views_of(ts@))) by {
                    assert(views_of(ts@)[k as int] == ts@[k as int]@);
                }
                return None;
            },
        }
        k = k + 1;
    }
    Some(v)
}

} // verus!
