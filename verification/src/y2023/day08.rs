//! Desert map: a line of `L`/`R` turns and nodes `AAA = (BBB, CCC)`.
//! Part one follows the turns from `AAA` until `ZZZ`.  Part two runs
//! from every node ending in `A` until each path has hit a node ending
//! in `Z` twice, requires the visits to repeat uniformly, and combines
//! the first-visit steps into one count by multiplying them, dividing
//! out the turn count where it divides a path — checking that the
//! result is a common multiple of the path lengths built from pairwise
//! coprime factors, and so their least common multiple.

use vstd::prelude::*;
use crate::text::views_of;

verus! {

/// The most steps either walk will attempt.
pub const FUEL_MAX: u64 = 0x1000_0000;

/// A map entry: a node and its left and right neighbours.
pub struct Entry {
    pub node: [u8; 3],
    pub left: [u8; 3],
    pub right: [u8; 3],
}

/// The entry a sixteen-byte line `AAA = (BBB, CCC)` denotes; other
/// lines denote none.
pub open spec fn line_entry_ok(l: Seq<u8>) -> bool {
    l.len() == 16
}

pub open spec fn line_entry(l: Seq<u8>) -> (Seq<u8>, Seq<u8>, Seq<u8>) {
    (l.subrange(0, 3), l.subrange(7, 10), l.subrange(12, 15))
}

/// The entries of the map lines after the first two.
pub open spec fn entries_of(lv: Seq<Seq<u8>>, i: int) -> Seq<(Seq<u8>, Seq<u8>, Seq<u8>)>
    decreases lv.len() - i,
{
    if i < 2 || i >= lv.len() {
        Seq::empty()
    } else {
        (if line_entry_ok(lv[i]) {
            seq![line_entry(lv[i])]
        } else {
            Seq::empty()
        }) + entries_of(lv, i + 1)
    }
}

/// The last entry for `n` — a later line overrides an earlier one —
/// or `-1` when absent.
pub open spec fn lookup(es: Seq<(Seq<u8>, Seq<u8>, Seq<u8>)>, n: Seq<u8>) -> int
    decreases es.len(),
{
    if es.len() == 0 {
        -1
    } else if es.last().0 == n {
        es.len() - 1
    } else {
        lookup(es.drop_last(), n)
    }
}

/// All entry nodes are distinct.
pub open spec fn keys_distinct(es: Seq<(Seq<u8>, Seq<u8>, Seq<u8>)>) -> bool {
    forall|a: int, b: int|
        0 <= a < b < es.len() ==> (#[trigger] es[a]).0 != (#[trigger] es[b]).0
}

/// The turn at step `k`: the instruction line cycles.
pub open spec fn turn_at(instr: Seq<u8>, k: int) -> u8 {
    instr[k % (instr.len() as int)]
}

/// The node after one turn, `-1` folded in by the caller when absent.
pub open spec fn step_node(es: Seq<(Seq<u8>, Seq<u8>, Seq<u8>)>, n: Seq<u8>, t: u8) -> Seq<u8> {
    let j = lookup(es, n);
    if t == 76 {
        es[j].1
    } else {
        es[j].2
    }
}

/// The steps to reach `ZZZ` from `n` after `steps` turns, or `-1`
/// when the walk leaves the map or the fuel runs out.
pub open spec fn walk1(
    es: Seq<(Seq<u8>, Seq<u8>, Seq<u8>)>,
    instr: Seq<u8>,
    n: Seq<u8>,
    steps: int,
    fuel: nat,
) -> int
    decreases fuel,
{
    if n == seq![90u8, 90u8, 90u8] {
        steps
    } else if fuel == 0 || lookup(es, n) < 0 || instr.len() == 0 {
        -1
    } else {
        walk1(es, instr, step_node(es, n, turn_at(instr, steps)), steps + 1, (fuel - 1) as nat)
    }
}

/// The instruction line holds only `L` and `R` turns.
pub open spec fn instr_ok(l: Seq<u8>) -> bool {
    l.len() >= 1 && forall|i: int| 0 <= i < l.len() ==> l[i] == 76 || #[trigger] l[i] == 82
}

/// The part-one walk from `AAA`.
pub open spec fn walk1_full(instr: Seq<u8>, es: Seq<(Seq<u8>, Seq<u8>, Seq<u8>)>) -> int {
    walk1(es, instr, seq![65u8, 65u8, 65u8], 0, FUEL_MAX as nat)
}

/// A part-one input is well formed: a turn line, an empty line, and a
/// map in which the walk from `AAA` reaches `ZZZ` within the fuel.
pub open spec fn part1_ok(lv: Seq<Seq<u8>>) -> bool {
    &&& lv.len() >= 2
    &&& lv[1].len() == 0
    &&& instr_ok(lv[0])
    &&& walk1_full(lv[0], entries_of(lv, 2)) >= 0
}

/// Are the map's node names pairwise distinct?
#[verifier::loop_isolation(false)]
fn keys_distinct_exec(es: &Vec<Entry>) -> (r: bool)
    ensures
        r == keys_distinct(entries_model(es@)),
{
    let ghost em = entries_model(es@);
    let mut a: usize = 0;
    while a < es.len()
        invariant
            0 <= a <= es@.len(),
            em == entries_model(es@),
            forall|x: int, y: int|
                0 <= x < y < es@.len() && x < a ==> (#[trigger] em[x]).0 != (#[trigger] em[y]).0,
        decreases es@.len() - a,
    {
        let mut b: usize = a + 1;
        while b < es.len()
            invariant
                a < b <= es@.len() || b == a + 1,
                a < es@.len(),
                em == entries_model(es@),
                forall|y: int| a < y < b ==> (#[trigger] em[y]).0 != em[a as int].0,
            decreases es@.len() - b,
        {
            if node_eq(&es[a].node, &es[b].node) {
                proof {
                    assert(em[a as int].0 == em[b as int].0);
                }
                return false;
            }
            proof {
                assert(em[b as int].0 != em[a as int].0);
            }
            b = b + 1;
        }
        a = a + 1;
    }
    true
}

/// The entry triples a machine entry list denotes.
pub open spec fn entries_model(v: Seq<Entry>) -> Seq<(Seq<u8>, Seq<u8>, Seq<u8>)> {
    Seq::new(v.len(), |k: int| (v[k].node@, v[k].left@, v[k].right@))
}

/// Do two node names spell the same three bytes?
fn node_eq(a: &[u8; 3], b: &[u8; 3]) -> (r: bool)
    ensures
        r == (a@ == b@),
{
    let r = a[0] == b[0] && a[1] == b[1] && a[2] == b[2];
    proof {
        if r {
            assert(a@ =~= b@);
        }
    }
    r
}

/// The last entry for `n`, or `None` when the map has none.
#[verifier::loop_isolation(false)]
fn lookup_exec(es: &Vec<Entry>, n: &[u8; 3]) -> (r: Option<usize>)
    ensures
        match r {
            Some(j) => lookup(entries_model(es@), n@) == j && j < es@.len(),
            None => lookup(entries_model(es@), n@) < 0,
        },
{
    let ghost em = entries_model(es@);
    let mut j: usize = es.len();
    proof {
        assert(em.take(es@.len() as int) =~= em);
    }
    while j > 0
        invariant
            0 <= j <= es@.len(),
            lookup(em, n@) == lookup(em.take(j as int), n@),
        decreases j,
    {
        proof {
            assert(em.take(j as int).last() == em[j - 1]);
            assert(em.take(j as int).drop_last() =~= em.take(j - 1));
        }
        if node_eq(&es[j - 1].node, n) {
            proof {
                assert(em[j - 1].0 == n@);
                assert(lookup(em.take(j as int), n@) == j - 1);
            }
            return Some(j - 1);
        }
        proof {
            assert(em[j - 1].0 != n@);
        }
        j = j - 1;
    }
    proof {
        assert(em.take(0) =~= Seq::<(Seq<u8>, Seq<u8>, Seq<u8>)>::empty());
    }
    None
}

/// Reads the turn line and the map entries shared by both parts.
///
/// Returns them exactly when the input has a turn line of `L` and
/// `R` only and an empty second line; `None` otherwise.
#[verifier::loop_isolation(false)]
fn parse_map(lines: &Vec<Vec<u8>>) -> (r: Option<(Vec<u8>, Vec<Entry>)>)
    ensures
        match r {
            Some((instr, es)) => {
                &&& lines@.len() >= 2
                &&& views_of(lines@)[1].len() == 0
                &&& instr_ok(views_of(lines@)[0])
                &&& instr@ == views_of(lines@)[0]
                &&& entries_model(es@) == entries_of(views_of(lines@), 2)
            },
            None => !(lines@.len() >= 2 && views_of(lines@)[1].len() == 0 && instr_ok(
                views_of(lines@)[0],
            )),
        },
{
    let ghost lv = views_of(lines@);
    if lines.len() < 2 {
        return None;
    }
    proof {
        assert(lv[0] == lines@[0]@);
        assert(lv[1] == lines@[1]@);
    }
    if lines[1].len() != 0 {
        return None;
    }
    let instr = crate::text::subvec(&lines[0], 0, lines[0].len());
    proof {
        assert(instr@ =~= lv[0]);
    }
    if instr.len() == 0 {
        return None;
    }
    let mut i: usize = 0;
    while i < instr.len()
        invariant
            0 <= i <= instr@.len(),
            instr@ == lv[0],
            forall|t: int| 0 <= t < i ==> instr@[t] == 76 || #[trigger] instr@[t] == 82,
        decreases instr@.len() - i,
    {
        let b = instr[i];
        if b != 76 && b != 82 {
            return None;
        }
        i = i + 1;
    }
    let mut es: Vec<Entry> = Vec::new();
    let mut j: usize = 2;
    proof {
        assert(entries_model(es@) + entries_of(lv, 2) =~= entries_of(lv, 2));
    }
    while j < lines.len()
        invariant
            2 <= j <= lines@.len(),
            entries_of(lv, 2) == entries_model(es@) + entries_of(lv, j as int),
        decreases lines@.len() - j,
    {
        proof {
            assert(lv[j as int] == lines@[j as int]@);
        }
        let line = &lines[j];
        if line.len() == 16 {
            let ghost pre = entries_model(es@);
            let e = Entry {
                node: [line[0], line[1], line[2]],
                left: [line[7], line[8], line[9]],
                right: [line[12], line[13], line[14]],
            };
            es.push(e);
            proof {
                assert(e.node@ =~= lv[j as int].subrange(0, 3));
                assert(e.left@ =~= lv[j as int].subrange(7, 10));
                assert(e.right@ =~= lv[j as int].subrange(12, 15));
                assert(entries_model(es@) =~= pre.push(line_entry(lv[j as int]))) by {
                    assert(forall|k: int|
                        0 <= k < pre.len() ==> entries_model(es@)[k] == pre[k]);
                }
                assert(entries_of(lv, 2) =~= entries_model(es@) + entries_of(lv, j + 1));
            }
        } else {
            proof {
                assert(entries_of(lv, 2) =~= entries_model(es@) + entries_of(lv, j + 1));
            }
        }
        j = j + 1;
    }
    proof {
        assert(entries_of(lv, lines@.len() as int) =~= Seq::<(Seq<u8>, Seq<u8>, Seq<u8>)>::empty());
        assert(entries_model(es@) =~= entries_of(lv, 2));
    }
    Some((instr, es))
}

/// Follows the turns from `AAA` until `ZZZ` and counts the steps; a
/// node named twice takes its later entry.
///
/// Returns the count exactly when the input is well formed and the
/// walk reaches `ZZZ` within the accepted number of steps; returns
/// `None` otherwise.
#[verifier::loop_isolation(false)]
pub fn solve_part1(lines: &Vec<Vec<u8>>) -> (r: Option<u64>)
    ensures
        match r {
            Some(v) => {
                &&& part1_ok(views_of(lines@))
                &&& v == walk1_full(views_of(lines@)[0], entries_of(views_of(lines@), 2))
            },
            None => !part1_ok(views_of(lines@)),
        },
{
    let ghost lv = views_of(lines@);
    let (instr, es) = match parse_map(lines) {
        None => {
            return None;
        },
        Some(p) => p,
    };
    let ghost em = entries_model(es@);
    let mut node: [u8; 3] = [65, 65, 65];
    let mut steps: u64 = 0;
    let mut fuel: u64 = FUEL_MAX;
    proof {
        assert(node@ =~= seq![65u8, 65u8, 65u8]);
        assert(walk1_full(lv[0], em) == walk1(em, instr@, node@, 0, FUEL_MAX as nat));
    }
    while fuel > 0
        invariant
            steps + fuel == FUEL_MAX,
            instr@ == lv[0],
            instr_ok(instr@),
            em == entries_model(es@),
            walk1_full(lv[0], em) == walk1(em, instr@, node@, steps as int, fuel as nat),
        decreases fuel,
    {
        if node[0] == 90 && node[1] == 90 && node[2] == 90 {
            proof {
                assert(node@ =~= seq![90u8, 90u8, 90u8]);
            }
            return Some(steps);
        }
        proof {
            assert(node@ != seq![90u8, 90u8, 90u8]) by {
                if node@ =~= seq![90u8, 90u8, 90u8] {
                    assert(node@[0] == 90 && node@[1] == 90 && node@[2] == 90);
                }
            }
        }
        let j = match lookup_exec(&es, &node) {
            None => {
                return None;
            },
            Some(j) => j,
        };
        let ii = steps % (instr.len() as u64);
        let t = instr[ii as usize];
        proof {
            assert(t == turn_at(instr@, steps as int));
        }
        let ghost nprev = node@;
        node = if t == 76 {
            es[j].left
        } else {
            es[j].right
        };
        proof {
            assert(em[j as int].1 == es@[j as int].left@);
            assert(em[j as int].2 == es@[j as int].right@);
            assert(node@ == step_node(em, nprev, t));
        }
        steps = steps + 1;
        fuel = fuel - 1;
    }
    // out of fuel: the walk succeeded only if it is already home
    if node[0] == 90 && node[1] == 90 && node[2] == 90 {
        proof {
            assert(node@ =~= seq![90u8, 90u8, 90u8]);
        }
        return Some(steps);
    }
    proof {
        assert(node@ != seq![90u8, 90u8, 90u8]) by {
            if node@ =~= seq![90u8, 90u8, 90u8] {
                assert(node@[0] == 90 && node@[1] == 90 && node@[2] == 90);
            }
        }
    }
    None
}

/// A ghost-start node: its name ends in `A`.
pub open spec fn is_start_node(n: Seq<u8>) -> bool {
    n.len() == 3 && n[2] == 65
}

/// A ghost-end node: its name ends in `Z`.
pub open spec fn is_end_node(n: Seq<u8>) -> bool {
    n.len() == 3 && n[2] == 90
}

/// The map nodes ending in `A`, in entry order, from entry `j` on.
pub open spec fn starts_of(es: Seq<(Seq<u8>, Seq<u8>, Seq<u8>)>, j: int) -> Seq<Seq<u8>>
    decreases es.len() - j,
{
    if j < 0 || j >= es.len() {
        Seq::empty()
    } else {
        (if is_start_node(es[j].0) {
            seq![es[j].0]
        } else {
            Seq::empty()
        }) + starts_of(es, j + 1)
    }
}

pub open spec fn all_done(seconds: Seq<int>) -> bool {
    forall|k: int| 0 <= k < seconds.len() ==> #[trigger] seconds[k] >= 0
}

pub open spec fn all_present(es: Seq<(Seq<u8>, Seq<u8>, Seq<u8>)>, nodes: Seq<Seq<u8>>) -> bool {
    forall|k: int| 0 <= k < nodes.len() ==> lookup(es, #[trigger] nodes[k]) >= 0
}

/// All ghosts take the same turn at once.
pub open spec fn stepped(es: Seq<(Seq<u8>, Seq<u8>, Seq<u8>)>, nodes: Seq<Seq<u8>>, t: u8) -> Seq<
    Seq<u8>,
> {
    Seq::new(nodes.len(), |k: int| step_node(es, nodes[k], t))
}

/// Records a first end-node visit at `step`.
pub open spec fn upd_firsts(nodes2: Seq<Seq<u8>>, firsts: Seq<int>, step: int) -> Seq<int> {
    Seq::new(
        firsts.len(),
        |k: int|
            if is_end_node(nodes2[k]) && firsts[k] < 0 {
                step
            } else {
                firsts[k]
            },
    )
}

/// Records a second end-node visit at `step`.
pub open spec fn upd_seconds(nodes2: Seq<Seq<u8>>, firsts: Seq<int>, seconds: Seq<int>, step: int) -> Seq<int> {
    Seq::new(
        seconds.len(),
        |k: int|
            if is_end_node(nodes2[k]) && firsts[k] >= 0 && seconds[k] < 0 {
                step
            } else {
                seconds[k]
            },
    )
}

/// The simultaneous walk: every ghost turns together until each has
/// visited an end node twice; the result records whether that
/// happened within the fuel, and each ghost's two visit steps.
pub open spec fn walk2(
    es: Seq<(Seq<u8>, Seq<u8>, Seq<u8>)>,
    instr: Seq<u8>,
    nodes: Seq<Seq<u8>>,
    firsts: Seq<int>,
    seconds: Seq<int>,
    step: int,
    fuel: nat,
) -> (bool, Seq<int>, Seq<int>)
    decreases fuel,
{
    if all_done(seconds) {
        (true, firsts, seconds)
    } else if fuel == 0 || instr.len() == 0 || !all_present(es, nodes) {
        (false, firsts, seconds)
    } else {
        let t = turn_at(instr, step);
        let nodes2 = stepped(es, nodes, t);
        walk2(
            es,
            instr,
            nodes2,
            upd_firsts(nodes2, firsts, step + 1),
            upd_seconds(nodes2, firsts, seconds, step + 1),
            step + 1,
            (fuel - 1) as nat,
        )
    }
}

/// The whole part-two walk of an input.
pub open spec fn walk2_full(lv: Seq<Seq<u8>>) -> (bool, Seq<int>, Seq<int>) {
    let es = entries_of(lv, 2);
    let n = starts_of(es, 0).len();
    walk2(
        es,
        lv[0],
        starts_of(es, 0),
        Seq::new(n, |k: int| -1),
        Seq::new(n, |k: int| -1),
        0,
        FUEL_MAX as nat,
    )
}

/// Every ghost's second visit comes one first-visit length after the
/// first: the loops are uniform.
pub open spec fn uniform(firsts: Seq<int>, seconds: Seq<int>) -> bool {
    forall|k: int|
        0 <= k < firsts.len() ==> #[trigger] seconds[k] - firsts[k] == firsts[k]
}

/// A path length, with the turn count divided out where it divides
/// the length without being it.
pub open spec fn adjusted(cur: int, il: int) -> int {
    if il != 0 && cur % il == 0 && cur != il {
        cur / il
    } else {
        cur
    }
}

/// The combined count over the first `k + 1` ghosts: the first path
/// length times every later ghost's adjusted length.
pub open spec fn red(firsts: Seq<int>, il: int, k: int) -> int
    decreases k,
{
    if k <= 0 {
        firsts[0]
    } else {
        red(firsts, il, k - 1) * adjusted(firsts[k], il)
    }
}

/// The greatest common divisor, by Euclid's recursion.
pub open spec fn spec_gcd(a: nat, b: nat) -> nat
    decreases b,
{
    if b == 0 {
        a
    } else {
        spec_gcd(b, a % b)
    }
}

/// The factor the combined count takes from ghost `k`: the first
/// ghost's whole path length, every later ghost's adjusted length.
pub open spec fn term_of(firsts: Seq<int>, il: int, k: int) -> int {
    if k == 0 {
        firsts[0]
    } else {
        adjusted(firsts[k], il)
    }
}

/// A part-two input is well formed: the shape of part one, at least
/// one ghost, a walk that finishes in fuel with uniform loops,
/// combined counts staying inside `u64`, and path lengths whose
/// combined count is a common multiple of them built from pairwise
/// coprime factors — the conditions under which the combination is
/// their least common multiple, and so (with the loops uniform) the
/// first step on which every ghost stands on an end node at once.
pub open spec fn part2_ok(lv: Seq<Seq<u8>>) -> bool {
    let es = entries_of(lv, 2);
    let il = lv[0].len() as int;
    let n = starts_of(es, 0).len();
    let w = walk2_full(lv);
    &&& lv.len() >= 2
    &&& lv[1].len() == 0
    &&& instr_ok(lv[0])
    &&& keys_distinct(es)
    &&& n >= 1
    &&& w.0
    &&& uniform(w.1, w.2)
    &&& forall|k: int| 0 <= k < n ==> #[trigger] w.1[k] >= 1
    &&& forall|k: int| 0 <= k < n ==> #[trigger] red(w.1, lv[0].len() as int, k) <= u64::MAX
    &&& forall|g: int| 0 <= g < n ==> red(w.1, il, n - 1) % (#[trigger] w.1[g]) == 0
    &&& forall|i: int, j: int|
        0 <= i < j < n ==> #[trigger] spec_gcd(
            term_of(w.1, il, i) as nat,
            term_of(w.1, il, j) as nat,
        ) == 1
}

/// The greatest common divisor.
fn gcd_exec(a0: u64, b0: u64) -> (g: u64)
    ensures
        g as nat == spec_gcd(a0 as nat, b0 as nat),
{
    let mut a = a0;
    let mut b = b0;
    while b != 0
        invariant
            spec_gcd(a as nat, b as nat) == spec_gcd(a0 as nat, b0 as nat),
        decreases b,
    {
        let t = a % b;
        a = b;
        b = t;
    }
    a
}

/// The node names a machine list denotes.
pub open spec fn nodes_model(v: Seq<[u8; 3]>) -> Seq<Seq<u8>> {
    Seq::new(v.len(), |k: int| v[k]@)
}

/// Runs every ghost path at once and combines the path lengths: the
/// first kept whole, the others divided by the turn count where it
/// divides them, all multiplied together.
///
/// Returns the count exactly when the input is well formed as part
/// two asks — including that the combined count is a common multiple
/// of every path length and its factors are pairwise coprime, so
/// that (the uniform-loop check standing for path periodicity) it is
/// the least step count on which every ghost is on an end node —
/// and `None` otherwise.
#[verifier::loop_isolation(false)]
pub fn solve_part2(lines: &Vec<Vec<u8>>) -> (r: Option<u64>)
    ensures
        match r {
            Some(v) => part2_ok(views_of(lines@)) && v == red(
                walk2_full(views_of(lines@)).1,
                views_of(lines@)[0].len() as int,
                starts_of(entries_of(views_of(lines@), 2), 0).len() - 1,
            ),
            None => !part2_ok(views_of(lines@)),
        },
{
    let ghost lv = views_of(lines@);
    let (instr, es) = match parse_map(lines) {
        None => {
            return None;
        },
        Some(p) => p,
    };
    let ghost em = entries_model(es@);
    // a repeated node name would make the same ghost start twice
    if !keys_distinct_exec(&es) {
        return None;
    }
    // the ghosts' starting nodes
    let mut nodes: Vec<[u8; 3]> = Vec::new();
    let mut j: usize = 0;
    proof {
        assert(nodes_model(nodes@) + starts_of(em, 0) =~= starts_of(em, 0));
    }
    while j < es.len()
        invariant
            0 <= j <= es@.len(),
            em == entries_model(es@),
            starts_of(em, 0) == nodes_model(nodes@) + starts_of(em, j as int),
        decreases es@.len() - j,
    {
        proof {
            assert(em[j as int].0 == es@[j as int].node@);
        }
        if es[j].node[2] == 65 {
            let ghost pre = nodes_model(nodes@);
            nodes.push(es[j].node);
            proof {
                assert(nodes_model(nodes@) =~= pre.push(em[j as int].0)) by {
                    assert(forall|k: int|
                        0 <= k < pre.len() ==> nodes_model(nodes@)[k] == pre[k]);
                }
                assert(starts_of(em, 0) =~= nodes_model(nodes@) + starts_of(em, j + 1));
            }
        } else {
            proof {
                assert(starts_of(em, 0) =~= nodes_model(nodes@) + starts_of(em, j + 1));
            }
        }
        j = j + 1;
    }
    proof {
        assert(starts_of(em, es@.len() as int) =~= Seq::<Seq<u8>>::empty());
        assert(nodes_model(nodes@) =~= starts_of(em, 0));
    }
    let n = nodes.len();
    if n == 0 {
        return None;
    }
    let mut firsts: Vec<i64> = Vec::new();
    let mut seconds: Vec<i64> = Vec::new();
    let mut k0: usize = 0;
    while k0 < n
        invariant
            0 <= k0 <= n,
            firsts@.len() == k0,
            seconds@.len() == k0,
            forall|k: int| 0 <= k < k0 ==> #[trigger] firsts@[k] == -1,
            forall|k: int| 0 <= k < k0 ==> #[trigger] seconds@[k] == -1,
        decreases n - k0,
    {
        firsts.push(-1);
        seconds.push(-1);
        k0 = k0 + 1;
    }
    let ghost target = walk2_full(lv);
    proof {
        assert(crate::text::ints_of(firsts@) =~= Seq::new(nodes_model(nodes@).len(), |k: int| -1int));
        assert(crate::text::ints_of(seconds@) =~= Seq::new(
            nodes_model(nodes@).len(),
            |k: int| -1int,
        ));
        assert(target == walk2(
            em,
            instr@,
            nodes_model(nodes@),
            crate::text::ints_of(firsts@),
            crate::text::ints_of(seconds@),
            0,
            FUEL_MAX as nat,
        ));
    }
    let mut step: u64 = 0;
    let mut fuel: u64 = FUEL_MAX;
    let mut done = false;
    proof {
        assert(crate::text::ints_of(seconds@)[0] == -1);
        assert(!all_done(crate::text::ints_of(seconds@)));
    }
    while !done && fuel > 0
        invariant
            step + fuel == FUEL_MAX,
            nodes@.len() == n,
            firsts@.len() == n,
            seconds@.len() == n,
            em == entries_model(es@),
            instr@ == lv[0],
            instr_ok(instr@),
            done == all_done(crate::text::ints_of(seconds@)),
            forall|k: int|
                0 <= k < n ==> #[trigger] firsts@[k] == -1 || 1 <= firsts@[k] <= step,
            forall|k: int|
                0 <= k < n ==> #[trigger] seconds@[k] == -1 || 1 <= seconds@[k] <= step,
            target == walk2(
                em,
                instr@,
                nodes_model(nodes@),
                crate::text::ints_of(firsts@),
                crate::text::ints_of(seconds@),
                step as int,
                fuel as nat,
            ),
        decreases fuel,
    {
        let ghost nm0 = nodes_model(nodes@);
        let ghost f0 = crate::text::ints_of(firsts@);
        let ghost s0 = crate::text::ints_of(seconds@);
        let ghost step0 = step as int;
        let ghost fuel0 = fuel as nat;
        let ii = step % (instr.len() as u64);
        let t = instr[ii as usize];
        proof {
            assert(t == turn_at(instr@, step as int));
        }
        step = step + 1;
        // every ghost takes the turn at once
        let mut k: usize = 0;
        while k < n
            invariant
                0 <= k <= n,
                nodes@.len() == n,
                firsts@.len() == n,
                seconds@.len() == n,
                em == entries_model(es@),
                step >= 1,
                forall|k2: int| k <= k2 < n ==> #[trigger] nodes@[k2]@ == nm0[k2],
                forall|k2: int| k <= k2 < n ==> #[trigger] firsts@[k2] as int == f0[k2],
                forall|k2: int| k <= k2 < n ==> #[trigger] seconds@[k2] as int == s0[k2],
                forall|k2: int| 0 <= k2 < k ==> lookup(em, #[trigger] nm0[k2]) >= 0,
                forall|k2: int|
                    0 <= k2 < k ==> #[trigger] nodes@[k2]@ == stepped(em, nm0, t)[k2],
                forall|k2: int|
                    0 <= k2 < k ==> #[trigger] firsts@[k2] as int == upd_firsts(
                        stepped(em, nm0, t),
                        f0,
                        step as int,
                    )[k2],
                forall|k2: int|
                    0 <= k2 < k ==> #[trigger] seconds@[k2] as int == upd_seconds(
                        stepped(em, nm0, t),
                        f0,
                        s0,
                        step as int,
                    )[k2],
                forall|k2: int|
                    0 <= k2 < n ==> #[trigger] firsts@[k2] == -1 || 1 <= firsts@[k2] <= step,
                forall|k2: int|
                    0 <= k2 < n ==> #[trigger] seconds@[k2] == -1 || 1 <= seconds@[k2] <= step,
            decreases n - k,
        {
            let cur = nodes[k];
            proof {
                assert(cur@ == nm0[k as int]);
            }
            let ji = match lookup_exec(&es, &cur) {
                None => {
                    proof {
                        assert(!all_present(em, nm0)) by {
                            assert(nm0[k as int] == cur@);
                        }
                        assert(target == (
                            false,
                            crate::text::ints_of(firsts@),
                            crate::text::ints_of(seconds@),
                        ) || target.0 == false) by {
                            assert(forall|k2: int|
                                k as int <= k2 < n ==> #[trigger] firsts@[k2] as int == f0[k2]);
                        }
                    }
                    return None;
                },
                Some(ji) => ji,
            };
            let nl: [u8; 3] = if t == 76 {
                es[ji].left
            } else {
                es[ji].right
            };
            proof {
                assert(em[ji as int].1 == es@[ji as int].left@);
                assert(em[ji as int].2 == es@[ji as int].right@);
                assert(nl@ == step_node(em, nm0[k as int], t));
            }
            let ghost nodes_pre = nodes@;
            nodes.set(k, nl);
            let ghost firsts_pre = firsts@;
            let ghost seconds_pre = seconds@;
            let was_first = firsts[k];
            let was_second = seconds[k];
            if nl[2] == 90 {
                proof {
                    assert(is_end_node(nl@));
                }
                if was_first < 0 {
                    firsts.set(k, step as i64);
                } else if was_second < 0 {
                    seconds.set(k, step as i64);
                }
            } else {
                proof {
                    assert(!is_end_node(nl@));
                }
            }
            proof {
                assert(lookup(em, nm0[k as int]) >= 0);
                assert(nodes@[k as int]@ == stepped(em, nm0, t)[k as int]);
                assert(firsts@[k as int] as int == upd_firsts(
                    stepped(em, nm0, t),
                    f0,
                    step as int,
                )[k as int]);
                assert(seconds@[k as int] as int == upd_seconds(
                    stepped(em, nm0, t),
                    f0,
                    s0,
                    step as int,
                )[k as int]);
                assert forall|k2: int| 0 <= k2 < k + 1 implies lookup(em, #[trigger] nm0[k2]) >= 0 by {}
                assert forall|k2: int|
                    0 <= k2 < k + 1 implies #[trigger] nodes@[k2]@ == stepped(em, nm0, t)[k2] by {
                    if k2 < k {
                        assert(nodes@[k2] == nodes_pre[k2]);
                        assert(nodes_pre[k2]@ == stepped(em, nm0, t)[k2]);
                    }
                }
                assert forall|k2: int|
                    0 <= k2 < k + 1 implies #[trigger] firsts@[k2] as int == upd_firsts(
                    stepped(em, nm0, t),
                    f0,
                    step as int,
                )[k2] by {
                    if k2 < k {
                        assert(firsts@[k2] == firsts_pre[k2]);
                    }
                }
                assert forall|k2: int|
                    0 <= k2 < k + 1 implies #[trigger] seconds@[k2] as int == upd_seconds(
                    stepped(em, nm0, t),
                    f0,
                    s0,
                    step as int,
                )[k2] by {
                    if k2 < k {
                        assert(seconds@[k2] == seconds_pre[k2]);
                    }
                }
            }
            k = k + 1;
        }
        proof {
            assert(nodes_model(nodes@) =~= stepped(em, nm0, t));
            assert(crate::text::ints_of(firsts@) =~= upd_firsts(
                stepped(em, nm0, t),
                f0,
                step as int,
            ));
            assert(crate::text::ints_of(seconds@) =~= upd_seconds(
                stepped(em, nm0, t),
                f0,
                s0,
                step as int,
            ));
            assert(all_present(em, nm0));
            assert(!all_done(s0));
            assert(target == walk2(em, instr@, nm0, f0, s0, step0, fuel0));
            assert(target == walk2(
                em,
                instr@,
                nodes_model(nodes@),
                crate::text::ints_of(firsts@),
                crate::text::ints_of(seconds@),
                step0 + 1,
                (fuel0 - 1) as nat,
            ));
        }
        fuel = fuel - 1;
        // are all ghosts finished?
        let mut d = true;
        let mut k2: usize = 0;
        while k2 < n
            invariant
                0 <= k2 <= n,
                seconds@.len() == n,
                d == forall|k3: int| 0 <= k3 < k2 ==> #[trigger] seconds@[k3] >= 0,
            decreases n - k2,
        {
            if seconds[k2] < 0 {
                d = false;
            }
            k2 = k2 + 1;
        }
        done = d;
        proof {
            assert(done == all_done(crate::text::ints_of(seconds@)));
        }
    }
    if !done {
        proof {
            assert(fuel == 0);
            assert(target.0 == false);
        }
        return None;
    }
    proof {
        assert(target == (true, crate::text::ints_of(firsts@), crate::text::ints_of(seconds@)));
    }
    // the loops must be uniform, and every first visit positive
    let mut k3: usize = 0;
    while k3 < n
        invariant
            0 <= k3 <= n,
            firsts@.len() == n,
            seconds@.len() == n,
            target.1 == crate::text::ints_of(firsts@),
            target.2 == crate::text::ints_of(seconds@),
            forall|k4: int|
                0 <= k4 < k3 ==> #[trigger] target.2[k4] - target.1[k4] == target.1[k4],
            forall|k4: int| 0 <= k4 < k3 ==> #[trigger] target.1[k4] >= 1,
        decreases n - k3,
    {
        let fv = firsts[k3];
        let sv = seconds[k3];
        proof {
            assert(target.1[k3 as int] == fv as int);
            assert(target.2[k3 as int] == sv as int);
        }
        if fv < 1 || sv - fv != fv {
            proof {
                assert(starts_of(entries_of(lv, 2), 0).len() == n);
                assert(!part2_ok(lv));
            }
            return None;
        }
        k3 = k3 + 1;
    }
    // combine the path lengths
    let il = instr.len() as u64;
    proof {
        assert(target.1[0] >= 1);
        assert(firsts@[0] as int == target.1[0]);
    }
    let mut acc: u64 = firsts[0] as u64;
    let mut terms: Vec<u64> = Vec::new();
    terms.push(firsts[0] as u64);
    proof {
        assert(acc as int == red(target.1, il as int, 0));
        assert(terms@[0] as int == term_of(target.1, il as int, 0));
    }
    let mut k4: usize = 1;
    while k4 < n
        invariant
            1 <= k4 <= n,
            firsts@.len() == n,
            target.1 == crate::text::ints_of(firsts@),
            il as int == lv[0].len() as int,
            il >= 1,
            forall|k5: int| 0 <= k5 < n ==> #[trigger] target.1[k5] >= 1,
            acc as int == red(target.1, il as int, k4 - 1),
            forall|k5: int| 0 <= k5 < k4 ==> #[trigger] red(target.1, il as int, k5) <= u64::MAX,
            terms@.len() == k4,
            forall|k5: int|
                0 <= k5 < k4 ==> #[trigger] terms@[k5] as int == term_of(target.1, il as int, k5),
        decreases n - k4,
    {
        proof {
            assert(target.1[k4 as int] >= 1);
            assert(firsts@[k4 as int] as int == target.1[k4 as int]);
        }
        let fv = firsts[k4] as u64;
        let cur: u64 = if fv % il == 0 && fv != il {
            fv / il
        } else {
            fv
        };
        proof {
            assert(cur as int == adjusted(target.1[k4 as int], il as int));
        }
        let acc2 = match acc.checked_mul(cur) {
            None => {
                proof {
                    assert(red(target.1, il as int, k4 as int) > u64::MAX);
                    assert(starts_of(entries_of(lv, 2), 0).len() == n);
                    assert(!part2_ok(lv));
                }
                return None;
            },
            Some(a) => a,
        };
        terms.push(cur);
        acc = acc2;
        k4 = k4 + 1;
    }
    // the combined count must be a common multiple of the path lengths
    let mut g: usize = 0;
    while g < n
        invariant
            0 <= g <= n,
            firsts@.len() == n,
            target.1 == crate::text::ints_of(firsts@),
            il as int == lv[0].len() as int,
            forall|k5: int| 0 <= k5 < n ==> #[trigger] target.1[k5] >= 1,
            acc as int == red(target.1, il as int, n - 1),
            forall|g2: int|
                0 <= g2 < g ==> red(target.1, il as int, n - 1) % (#[trigger] target.1[g2]) == 0,
        decreases n - g,
    {
        proof {
            assert(firsts@[g as int] as int == target.1[g as int]);
        }
        if acc % (firsts[g] as u64) != 0 {
            proof {
                assert(red(target.1, il as int, n - 1) % target.1[g as int] != 0);
                assert(starts_of(entries_of(lv, 2), 0).len() == n);
                assert(!part2_ok(lv));
            }
            return None;
        }
        g = g + 1;
    }
    // and its factors pairwise coprime, so it is the least one
    let mut i5: usize = 0;
    while i5 < n
        invariant
            0 <= i5 <= n,
            terms@.len() == n,
            target.1 == crate::text::ints_of(firsts@),
            il as int == lv[0].len() as int,
            forall|k5: int|
                0 <= k5 < n ==> #[trigger] terms@[k5] as int == term_of(target.1, il as int, k5),
            forall|i6: int, j6: int|
                0 <= i6 < j6 < n && i6 < i5 ==> #[trigger] spec_gcd(
                    term_of(target.1, il as int, i6) as nat,
                    term_of(target.1, il as int, j6) as nat,
                ) == 1,
        decreases n - i5,
    {
        let mut j5: usize = i5 + 1;
        while j5 < n
            invariant
                i5 < j5 <= n || j5 == i5 + 1,
                i5 < n,
                terms@.len() == n,
                target.1 == crate::text::ints_of(firsts@),
                il as int == lv[0].len() as int,
                forall|k5: int|
                    0 <= k5 < n ==> #[trigger] terms@[k5] as int == term_of(
                        target.1,
                        il as int,
                        k5,
                    ),
                forall|j6: int|
                    i5 < j6 < j5 ==> #[trigger] spec_gcd(
                        term_of(target.1, il as int, i5 as int) as nat,
                        term_of(target.1, il as int, j6) as nat,
                    ) == 1,
            decreases n - j5,
        {
            let gv = gcd_exec(terms[i5], terms[j5]);
            if gv != 1 {
                proof {
                    assert(spec_gcd(
                        term_of(target.1, il as int, i5 as int) as nat,
                        term_of(target.1, il as int, j5 as int) as nat,
                    ) != 1);
                    assert(starts_of(entries_of(lv, 2), 0).len() == n);
                    assert(!part2_ok(lv));
                }
                return None;
            }
            j5 = j5 + 1;
        }
        i5 = i5 + 1;
    }
    Some(acc)
}

} // verus!
