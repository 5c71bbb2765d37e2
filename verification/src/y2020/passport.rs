//! Passport validation: passports are whitespace-separated `key:value`
//! fields in blank-line-separated groups.  A passport is complete when
//! all seven required fields appear, and valid when every field it
//! carries passes its field check.

use vstd::prelude::*;
use crate::text::{
    all_digits, digits_val, is_digit, split_spec, split_ws, space_pred, subvec, views_of,
};

verus! {

/// The whitespace tokens of all lines of the group `lines[a..b)`.
pub open spec fn group_fields(lv: Seq<Seq<u8>>, a: int, b: int) -> Seq<Seq<u8>>
    decreases b - a,
{
    if a < 0 || a >= b {
        Seq::empty()
    } else {
        split_spec(lv[a], space_pred()) + group_fields(lv, a + 1, b)
    }
}

/// The first index at or after `j` holding an empty line, or the end.
pub open spec fn group_end(lv: Seq<Seq<u8>>, j: int) -> int
    decreases lv.len() - j,
{
    if j >= lv.len() || lv[j].len() == 0 {
        j
    } else {
        group_end(lv, j + 1)
    }
}

/// A field's first three bytes name it.
pub open spec fn field_named(f: Seq<u8>, a: u8, b: u8, c: u8) -> bool {
    f.len() >= 3 && f[0] == a && f[1] == b && f[2] == c
}

/// Some field of the passport carries the three-byte name.
pub open spec fn has_field(fs: Seq<Seq<u8>>, a: u8, b: u8, c: u8) -> bool {
    exists|t: int| 0 <= t < fs.len() && field_named(#[trigger] fs[t], a, b, c)
}

/// All seven required fields are present.
pub open spec fn required_fields(fs: Seq<Seq<u8>>) -> bool {
    &&& has_field(fs, 98, 121, 114)  // byr
    &&& has_field(fs, 105, 121, 114)  // iyr
    &&& has_field(fs, 101, 121, 114)  // eyr
    &&& has_field(fs, 104, 103, 116)  // hgt
    &&& has_field(fs, 104, 99, 108)  // hcl
    &&& has_field(fs, 101, 99, 108)  // ecl
    &&& has_field(fs, 112, 105, 100)  // pid
}

/// The number the field's value denotes, or zero when it is not a
/// plain number fitting `u64`.
pub open spec fn num_after(f: Seq<u8>, i: int) -> int {
    let v = f.skip(i);
    if f.len() >= i && v.len() > 0 && all_digits(v) && digits_val(v) <= u64::MAX {
        digits_val(v)
    } else {
        0
    }
}

pub open spec fn byr_valid(f: Seq<u8>) -> bool {
    1920 <= num_after(f, 4) <= 2002
}

pub open spec fn iyr_valid(f: Seq<u8>) -> bool {
    2010 <= num_after(f, 4) <= 2020
}

pub open spec fn eyr_valid(f: Seq<u8>) -> bool {
    2020 <= num_after(f, 4) <= 2030
}

/// The first position at or after `i` where `c1 c2` occurs, or the
/// length when it never does.
pub open spec fn first_pair(s: Seq<u8>, c1: u8, c2: u8, i: int) -> int
    decreases s.len() - i,
{
    if i < 0 || i + 2 > s.len() {
        s.len() as int
    } else if s[i] == c1 && s[i + 1] == c2 {
        i
    } else {
        first_pair(s, c1, c2, i + 1)
    }
}

/// A height field: a number followed by its unit, `150`–`193` for
/// `cm` and `59`–`76` for `in`, judged on the text before the first
/// unit mark.
pub open spec fn hgt_valid(f: Seq<u8>) -> bool {
    let v = f.skip(4);
    let pcm = first_pair(v, 99, 109, 0);
    let pin = first_pair(v, 105, 110, 0);
    if f.len() >= 4 && pcm < v.len() {
        150 <= num_of_or_zero(v.take(pcm)) <= 193
    } else if f.len() >= 4 && pin < v.len() {
        59 <= num_of_or_zero(v.take(pin)) <= 76
    } else {
        false
    }
}

/// The number a byte string denotes, or zero when it is not one.
pub open spec fn num_of_or_zero(v: Seq<u8>) -> int {
    if v.len() > 0 && all_digits(v) && digits_val(v) <= u64::MAX {
        digits_val(v)
    } else {
        0
    }
}

pub open spec fn is_hex(b: u8) -> bool {
    is_digit(b) || (97 <= b <= 102) || (65 <= b <= 70)
}

/// A hair colour: `#` and at least six hex digits after the name.
pub open spec fn hcl_valid(f: Seq<u8>) -> bool {
    f.len() >= 11 && f[4] == 35 && forall|k: int| 5 <= k < 11 ==> is_hex(#[trigger] f[k])
}

/// An eye colour: one of the seven three-letter names.
pub open spec fn ecl_valid(f: Seq<u8>) -> bool {
    f.len() == 7 && {
        ||| (f[4] == 97 && f[5] == 109 && f[6] == 98)
        ||| (f[4] == 98 && f[5] == 108 && f[6] == 117)
        ||| (f[4] == 98 && f[5] == 114 && f[6] == 110)
        ||| (f[4] == 103 && f[5] == 114 && f[6] == 121)
        ||| (f[4] == 103 && f[5] == 114 && f[6] == 110)
        ||| (f[4] == 104 && f[5] == 122 && f[6] == 108)
        ||| (f[4] == 111 && f[5] == 116 && f[6] == 104)
    }
}

/// A passport id: exactly nine digits.
pub open spec fn pid_valid(f: Seq<u8>) -> bool {
    f.len() == 13 && all_digits(f.skip(4))
}

/// One field passes its check; unknown field names always pass.
pub open spec fn field_valid(f: Seq<u8>) -> bool {
    if field_named(f, 98, 121, 114) {
        byr_valid(f)
    } else if field_named(f, 105, 121, 114) {
        iyr_valid(f)
    } else if field_named(f, 101, 121, 114) {
        eyr_valid(f)
    } else if field_named(f, 104, 103, 116) {
        hgt_valid(f)
    } else if field_named(f, 104, 99, 108) {
        hcl_valid(f)
    } else if field_named(f, 101, 99, 108) {
        ecl_valid(f)
    } else if field_named(f, 112, 105, 100) {
        pid_valid(f)
    } else {
        true
    }
}

/// Every field of the passport passes its check.
pub open spec fn passport_valid(fs: Seq<Seq<u8>>) -> bool {
    forall|t: int| 0 <= t < fs.len() ==> field_valid(#[trigger] fs[t])
}

/// The group never ends before it starts.
pub proof fn lemma_group_end_ge(lv: Seq<Seq<u8>>, j: int)
    requires
        0 <= j,
    ensures
        group_end(lv, j) >= j,
        j <= lv.len() ==> group_end(lv, j) <= lv.len(),
    decreases lv.len() - j,
{
    if !(j >= lv.len() || lv[j].len() == 0) {
        lemma_group_end_ge(lv, j + 1);
    }
}

/// The complete and valid counts over the groups starting at `j`.
pub open spec fn passport_counts(lv: Seq<Seq<u8>>, j: int) -> (int, int)
    decreases lv.len() - j,
    via passport_counts_decreases
{
    if j < 0 || j >= lv.len() {
        (0, 0)
    } else {
        let e = group_end(lv, j);
        let fs = group_fields(lv, j, e);
        let rest = passport_counts(lv, if e < lv.len() {
            e + 1
        } else {
            e
        });
        (
            rest.0 + if required_fields(fs) {
                1int
            } else {
                0int
            },
            rest.1 + if required_fields(fs) && passport_valid(fs) {
                1int
            } else {
                0int
            },
        )
    }
}

#[via_fn]
proof fn passport_counts_decreases(lv: Seq<Seq<u8>>, j: int) {
    if 0 <= j < lv.len() {
        lemma_group_end_ge(lv, j);
    }
}

/// When `lines[j..e)` are nonempty and `e` is the end or blank, the
/// group ends at `e`.
proof fn lemma_group_end_char(lv: Seq<Seq<u8>>, j: int, e: int)
    requires
        0 <= j <= e <= lv.len(),
        forall|t: int| j <= t < e ==> (#[trigger] lv[t]).len() > 0,
        e == lv.len() || lv[e].len() == 0,
    ensures
        group_end(lv, j) == e,
    decreases e - j,
{
    if j < e {
        lemma_group_end_char(lv, j + 1, e);
    }
}

/// Extending a group by one line appends that line's fields.
proof fn lemma_group_fields_snoc(lv: Seq<Seq<u8>>, a: int, b: int)
    requires
        0 <= a <= b < lv.len(),
    ensures
        group_fields(lv, a, b + 1) == group_fields(lv, a, b) + split_spec(lv[b], space_pred()),
    decreases b - a,
{
    if a == b {
        assert(group_fields(lv, b + 1, b + 1) =~= Seq::<Seq<u8>>::empty());
        assert(group_fields(lv, a, b) =~= Seq::<Seq<u8>>::empty());
        assert(group_fields(lv, b, b + 1) =~= split_spec(lv[b], space_pred()) + Seq::<Seq<
            u8,
        >>::empty());
        assert(group_fields(lv, a, b + 1) =~= group_fields(lv, a, b) + split_spec(
            lv[b],
            space_pred(),
        ));
    } else {
        lemma_group_fields_snoc(lv, a + 1, b);
        assert(group_fields(lv, a, b + 1) =~= group_fields(lv, a, b) + split_spec(
            lv[b],
            space_pred(),
        ));
    }
}

/// The number a field's value denotes, or zero.
fn num_field(f: &Vec<u8>) -> (r: u64)
    ensures
        r == num_after(f@, 4),
{
    if f.len() < 4 {
        return 0;
    }
    let n = f.len();
    let v = subvec(f, 4, n);
    proof {
        assert(v@ =~= f@.skip(4));
    }
    match crate::text::parse_u64(&v) {
        Some(x) => x,
        None => 0,
    }
}

/// Is the birth year in range?
pub fn is_valid_byr(f: &Vec<u8>) -> (r: bool)
    ensures
        r == byr_valid(f@),
{
    let v = num_field(f);
    1920 <= v && v <= 2002
}

/// Is the issue year in range?
pub fn is_valid_iyr(f: &Vec<u8>) -> (r: bool)
    ensures
        r == iyr_valid(f@),
{
    let v = num_field(f);
    2010 <= v && v <= 2020
}

/// Is the expiration year in range?
pub fn is_valid_eyr(f: &Vec<u8>) -> (r: bool)
    ensures
        r == eyr_valid(f@),
{
    let v = num_field(f);
    2020 <= v && v <= 2030
}

/// The first position where the byte pair occurs, or the length.
#[verifier::loop_isolation(false)]
fn find_pair(v: &Vec<u8>, c1: u8, c2: u8) -> (r: usize)
    ensures
        r == first_pair(v@, c1, c2, 0),
{
    let n = v.len();
    if n < 2 {
        return n;
    }
    let mut i: usize = 0;
    while i <= n - 2
        invariant
            0 <= i <= n - 1,
            n == v@.len(),
            n >= 2,
            first_pair(v@, c1, c2, 0) == first_pair(v@, c1, c2, i as int),
        decreases n - i,
    {
        if v[i] == c1 && v[i + 1] == c2 {
            return i;
        }
        i = i + 1;
    }
    n
}

/// Is the height a number with a unit, in that unit's range?
#[verifier::loop_isolation(false)]
pub fn is_valid_hgt(f: &Vec<u8>) -> (r: bool)
    ensures
        r == hgt_valid(f@),
{
    if f.len() < 4 {
        return false;
    }
    let n = f.len();
    let v = subvec(f, 4, n);
    proof {
        assert(v@ =~= f@.skip(4));
    }
    let pcm = find_pair(&v, 99, 109);
    let pin = find_pair(&v, 105, 110);
    if pcm < v.len() {
        let pre = subvec(&v, 0, pcm);
        proof {
            assert(pre@ =~= v@.take(pcm as int));
        }
        let h = match crate::text::parse_u64(&pre) {
            Some(x) => x,
            None => 0,
        };
        proof {
            assert(h == num_of_or_zero(v@.take(pcm as int)));
        }
        150 <= h && h <= 193
    } else if pin < v.len() {
        let pre = subvec(&v, 0, pin);
        proof {
            assert(pre@ =~= v@.take(pin as int));
        }
        let h = match crate::text::parse_u64(&pre) {
            Some(x) => x,
            None => 0,
        };
        proof {
            assert(h == num_of_or_zero(v@.take(pin as int)));
        }
        59 <= h && h <= 76
    } else {
        false
    }
}

/// Is the hair colour a `#` and six hex digits?
#[verifier::loop_isolation(false)]
pub fn is_valid_hcl(f: &Vec<u8>) -> (r: bool)
    ensures
        r == hcl_valid(f@),
{
    if f.len() < 11 || f[4] != 35 {
        return false;
    }
    let mut k: usize = 5;
    while k < 11
        invariant
            5 <= k <= 11,
            f@.len() >= 11,
            forall|t: int| 5 <= t < k ==> is_hex(#[trigger] f@[t]),
        decreases 11 - k,
    {
        let b = f[k];
        if !((48 <= b && b <= 57) || (97 <= b && b <= 102) || (65 <= b && b <= 70)) {
            return false;
        }
        k = k + 1;
    }
    true
}

/// Is the eye colour one of the seven names?
pub fn is_valid_ecl(f: &Vec<u8>) -> (r: bool)
    ensures
        r == ecl_valid(f@),
{
    if f.len() != 7 {
        return false;
    }
    let a = f[4];
    let b = f[5];
    let c = f[6];
    (a == 97 && b == 109 && c == 98) || (a == 98 && b == 108 && c == 117) || (a == 98 && b == 114
        && c == 110) || (a == 103 && b == 114 && c == 121) || (a == 103 && b == 114 && c == 110)
        || (a == 104 && b == 122 && c == 108) || (a == 111 && b == 116 && c == 104)
}

/// Is the passport id exactly nine digits?
#[verifier::loop_isolation(false)]
pub fn is_valid_pid(f: &Vec<u8>) -> (r: bool)
    ensures
        r == pid_valid(f@),
{
    if f.len() != 13 {
        return false;
    }
    let mut k: usize = 4;
    while k < 13
        invariant
            4 <= k <= 13,
            f@.len() == 13,
            forall|t: int| 4 <= t < k ==> is_digit(#[trigger] f@[t]),
        decreases 13 - k,
    {
        let b = f[k];
        if b < 48 || b > 57 {
            proof {
                assert(!is_digit(f@[k as int]));
                assert(f@.skip(4)[k - 4] == f@[k as int]);
            }
            return false;
        }
        k = k + 1;
    }
    proof {
        assert(all_digits(f@.skip(4))) by {
            assert(forall|t: int| 0 <= t < 9 ==> f@.skip(4)[t] == f@[t + 4]);
        }
    }
    true
}

/// Does the field's three-byte name match?
fn named(f: &Vec<u8>, a: u8, b: u8, c: u8) -> (r: bool)
    ensures
        r == field_named(f@, a, b, c),
{
    f.len() >= 3 && f[0] == a && f[1] == b && f[2] == c
}

/// Does every field of the passport pass its check?
#[verifier::loop_isolation(false)]
pub fn is_valid_passport(fields: &Vec<Vec<u8>>) -> (r: bool)
    ensures
        r == passport_valid(views_of(fields@)),
{
    let ghost fs = views_of(fields@);
    let mut t: usize = 0;
    while t < fields.len()
        invariant
            0 <= t <= fields@.len(),
            forall|k: int| 0 <= k < t ==> field_valid(#[trigger] fs[k]),
        decreases fields@.len() - t,
    {
        proof {
            assert(fs[t as int] == fields@[t as int]@);
        }
        let f = &fields[t];
        let ok = if named(f, 98, 121, 114) {
            is_valid_byr(f)
        } else if named(f, 105, 121, 114) {
            is_valid_iyr(f)
        } else if named(f, 101, 121, 114) {
            is_valid_eyr(f)
        } else if named(f, 104, 103, 116) {
            is_valid_hgt(f)
        } else if named(f, 104, 99, 108) {
            is_valid_hcl(f)
        } else if named(f, 101, 99, 108) {
            is_valid_ecl(f)
        } else if named(f, 112, 105, 100) {
            is_valid_pid(f)
        } else {
            true
        };
        if !ok {
            proof {
                assert(!field_valid(fs[t as int]));
            }
            return false;
        }
        t = t + 1;
    }
    true
}

/// Does some field carry the three-byte name?
#[verifier::loop_isolation(false)]
fn has_field_exec(fields: &Vec<Vec<u8>>, a: u8, b: u8, c: u8) -> (r: bool)
    ensures
        r == has_field(views_of(fields@), a, b, c),
{
    let ghost fs = views_of(fields@);
    let mut t: usize = 0;
    while t < fields.len()
        invariant
            0 <= t <= fields@.len(),
            forall|k: int| 0 <= k < t ==> !field_named(#[trigger] fs[k], a, b, c),
        decreases fields@.len() - t,
    {
        proof {
            assert(fs[t as int] == fields@[t as int]@);
        }
        if named(&fields[t], a, b, c) {
            return true;
        }
        t = t + 1;
    }
    false
}

/// Are all seven required fields present?
pub fn has_required_fields(fields: &Vec<Vec<u8>>) -> (r: bool)
    ensures
        r == required_fields(views_of(fields@)),
{
    has_field_exec(fields, 98, 121, 114) && has_field_exec(fields, 105, 121, 114)
        && has_field_exec(fields, 101, 121, 114) && has_field_exec(fields, 104, 103, 116)
        && has_field_exec(fields, 104, 99, 108) && has_field_exec(fields, 101, 99, 108)
        && has_field_exec(fields, 112, 105, 100)
}

/// Counts the passports with all required fields, and those whose
/// fields are moreover all valid.
#[verifier::loop_isolation(false)]
pub fn count_passports(lines: &Vec<Vec<u8>>) -> (r: (u64, u64))
    ensures
        (r.0 as int, r.1 as int) == passport_counts(views_of(lines@), 0),
{
    let ghost lv = views_of(lines@);
    let mut complete: u64 = 0;
    let mut valid: u64 = 0;
    let mut j: usize = 0;
    while j < lines.len()
        invariant
            0 <= j <= lines@.len(),
            complete <= j,
            valid <= j,
            ({
                let rest = passport_counts(lv, j as int);
                passport_counts(lv, 0) == (complete + rest.0, valid + rest.1)
            }),
        decreases lines@.len() - j,
    {
        let ghost j0 = j as int;
        // gather the group's fields
        let mut fields: Vec<Vec<u8>> = Vec::new();
        proof {
            assert(views_of(fields@) =~= group_fields(lv, j0, j0));
        }
        while j < lines.len() && lines[j].len() > 0
            invariant
                j0 <= j <= lines@.len(),
                forall|t: int| j0 <= t < j ==> (#[trigger] lv[t]).len() > 0,
                views_of(fields@) == group_fields(lv, j0, j as int),
            decreases lines@.len() - j,
        {
            proof {
                assert(lv[j as int] == lines@[j as int]@);
            }
            let toks = split_ws(&lines[j]);
            let mut t: usize = 0;
            let ghost pre = views_of(fields@);
            while t < toks.len()
                invariant
                    0 <= t <= toks@.len(),
                    views_of(fields@) =~= pre + views_of(toks@).take(t as int),
                decreases toks@.len() - t,
            {
                let m = toks[t].len();
                let cp = subvec(&toks[t], 0, m);
                proof {
                    assert(cp@ =~= toks@[t as int]@);
                    assert(views_of(toks@)[t as int] == toks@[t as int]@);
                }
                let ghost before = views_of(fields@);
                fields.push(cp);
                proof {
                    assert(views_of(fields@) =~= before.push(toks@[t as int]@));
                    assert(views_of(fields@) =~= pre + views_of(toks@).take(t + 1));
                }
                t = t + 1;
            }
            proof {
                assert(views_of(toks@).take(toks@.len() as int) =~= views_of(toks@));
                lemma_group_fields_snoc(lv, j0, j as int);
                assert(views_of(fields@) =~= group_fields(lv, j0, j + 1));
            }
            j = j + 1;
        }
        proof {
            lemma_group_end_char(lv, j0, j as int);
        }
        let req = has_required_fields(&fields);
        if req {
            complete = complete + 1;
            let ok = is_valid_passport(&fields);
            if ok {
                valid = valid + 1;
            }
        }
        // skip the blank separator line
        if j < lines.len() {
            j = j + 1;
        }
        proof {
            assert(passport_counts(lv, j0) == {
                let e = group_end(lv, j0);
                let fs2 = group_fields(lv, j0, e);
                let rest = passport_counts(lv, if e < lv.len() {
                    e + 1
                } else {
                    e
                });
                (
                    rest.0 + if required_fields(fs2) {
                        1int
                    } else {
                        0int
                    },
                    rest.1 + if required_fields(fs2) && passport_valid(fs2) {
                        1int
                    } else {
                        0int
                    },
                )
            });
        }
    }
    proof {
        assert(passport_counts(lv, lines@.len() as int) == (0int, 0int));
    }
    (complete, valid)
}

} // verus!
