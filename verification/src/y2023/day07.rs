//! Camel cards: each line holds a five-card hand and a bid.  Hands are
//! ranked by type (five of a kind down to high card) and then by the
//! cards in order; the winnings are the sum of each hand's bid times
//! its rank.  Part two plays jokers: `J` counts for the best possible
//! type but is the weakest card for tie breaks.

use vstd::prelude::*;
use crate::text::{all_digits, digits_val, parse_u64, split_spec, split_ws, space_pred, views_of,
    lemma_digits_val_nonneg};

verus! {

/// Which rules a hand is scored under.
#[derive(Clone, Copy, Debug, PartialEq, Eq)]
pub enum RuleSet {
    Standard,
    Joker,
}

/// A hand's type, weakest first.
#[derive(Clone, Copy, Debug, PartialEq, Eq)]
pub enum Strength {
    HighCard,
    OnePair,
    TwoPair,
    ThreeKind,
    FullHouse,
    FourKind,
    FiveKind,
}

/// The five cards of a hand, as the bytes of the input.
#[derive(Clone, Copy, Debug, PartialEq, Eq)]
pub struct Cards(pub [u8; 5]);

/// A parsed hand: its cards, bid, and scored type.
pub struct Hand {
    pub cards: Cards,
    pub bet: u64,
    pub strength: Strength,
    pub rules: RuleSet,
}

/// A card's strength for tie breaks: ace high, joker lowest under
/// joker rules, anything unrecognised weakest of all.
pub open spec fn card_strength_spec(card: u8, rules: RuleSet) -> int {
    if card == 65 {  // A
        14
    } else if card == 75 {  // K
        13
    } else if card == 81 {  // Q
        12
    } else if card == 74 {  // J
        if rules is Standard {
            11
        } else {
            1
        }
    } else if card == 84 {  // T
        10
    } else if 50 <= card <= 57 {  // 2-9
        card - 48
    } else {
        0
    }
}

/// How many cards of the hand equal `c`.
pub open spec fn cnt(cards: Seq<u8>, c: u8) -> int
    decreases cards.len(),
{
    if cards.len() == 0 {
        0
    } else {
        cnt(cards.drop_last(), c) + if cards.last() == c {
            1int
        } else {
            0int
        }
    }
}

/// Under joker rules the `J` cards are set aside before counting.
pub open spec fn relevant(card: u8, rules: RuleSet) -> bool {
    rules is Standard || card != 74
}

/// The largest group of equal relevant cards, scanning positions at
/// or after `i`.
pub open spec fn max_cnt_from(cards: Seq<u8>, rules: RuleSet, i: int) -> int
    decreases cards.len() - i,
{
    if i < 0 || i >= cards.len() {
        0
    } else {
        let here = if relevant(cards[i], rules) {
            cnt(cards, cards[i])
        } else {
            0
        };
        let rest = max_cnt_from(cards, rules, i + 1);
        if here >= rest {
            here
        } else {
            rest
        }
    }
}

/// Two different relevant cards each appear at least twice.
pub open spec fn two_pairs(cards: Seq<u8>, rules: RuleSet) -> bool {
    exists|i: int, j: int|
        0 <= i < cards.len() && 0 <= j < cards.len() && #[trigger] cards[i] != #[trigger] cards[j]
            && relevant(cards[i], rules) && relevant(cards[j], rules) && cnt(cards, cards[i]) >= 2
            && cnt(cards, cards[j]) >= 2
}

/// The number of jokers set aside.
pub open spec fn joker_cnt(cards: Seq<u8>, rules: RuleSet) -> int {
    if rules is Joker {
        cnt(cards, 74)
    } else {
        0
    }
}

/// A hand's type: the jokers join the largest group of equal cards,
/// and a second pair distinguishes full houses and two pairs.
pub open spec fn strength_spec(cards: Seq<u8>, rules: RuleSet) -> Strength {
    let m = max_cnt_from(cards, rules, 0) + joker_cnt(cards, rules);
    if m >= 5 {
        Strength::FiveKind
    } else if m == 4 {
        Strength::FourKind
    } else if m == 3 && two_pairs(cards, rules) {
        Strength::FullHouse
    } else if m == 3 {
        Strength::ThreeKind
    } else if m == 2 && two_pairs(cards, rules) {
        Strength::TwoPair
    } else if m == 2 {
        Strength::OnePair
    } else {
        Strength::HighCard
    }
}

/// A type's place in the ranking, weakest zero.
pub open spec fn strength_rank(st: Strength) -> int {
    match st {
        Strength::HighCard => 0,
        Strength::OnePair => 1,
        Strength::TwoPair => 2,
        Strength::ThreeKind => 3,
        Strength::FullHouse => 4,
        Strength::FourKind => 5,
        Strength::FiveKind => 6,
    }
}

/// The sort key of a hand: type first, then the five cards in order.
pub open spec fn hand_key(cards: Seq<u8>, rules: RuleSet) -> int {
    strength_rank(strength_spec(cards, rules)) * 0x7_5000_0000 + card_strength_spec(
        cards[0],
        rules,
    ) * 0x10_0000 + card_strength_spec(cards[1], rules) * 0x1_0000 + card_strength_spec(
        cards[2],
        rules,
    ) * 0x1000 + card_strength_spec(cards[3], rules) * 0x100 + card_strength_spec(cards[4], rules)
        * 0x10
}

/// How many cards of the hand equal `c`.
fn cnt_exec(cards: &Cards, c: u8) -> (n: u64)
    ensures
        n == cnt(cards.0@, c),
        n <= 5,
{
    let ghost s = cards.0@;
    let mut n: u64 = 0;
    let mut i: usize = 0;
    proof {
        assert(s.take(0) =~= Seq::<u8>::empty());
    }
    while i < 5
        invariant
            0 <= i <= 5,
            s == cards.0@,
            s.len() == 5,
            n == cnt(s.take(i as int), c),
            n <= i,
        decreases 5 - i,
    {
        proof {
            assert(s.take(i + 1).drop_last() =~= s.take(i as int));
            assert(s.take(i + 1).last() == s[i as int]);
        }
        if cards.0[i] == c {
            n = n + 1;
        }
        i = i + 1;
    }
    proof {
        assert(s.take(5) =~= s);
    }
    n
}

impl Hand {
    /// Scores a hand under the given rules.
    #[verifier::loop_isolation(false)]
    pub fn strength(cards: &Cards, rules: RuleSet) -> (st: Strength)
        ensures
            st == strength_spec(cards.0@, rules),
    {
        let ghost s = cards.0@;
        let joker = match rules {
            RuleSet::Joker => true,
            RuleSet::Standard => false,
        };
        proof {
            assert(forall|c: u8| #[trigger] relevant(c, rules) == (!joker || c != 74));
        }
        // the largest group of equal relevant cards
        let mut m: u64 = 0;
        let mut i: usize = 5;
        proof {
            assert(max_cnt_from(s, rules, 5) == 0);
        }
        while i > 0
            invariant
                0 <= i <= 5,
                s == cards.0@,
                s.len() == 5,
                m == max_cnt_from(s, rules, i as int),
                m <= 5,
            decreases i,
        {
            i = i - 1;
            let c = cards.0[i];
            if !joker || c != 74 {
                let here = cnt_exec(cards, c);
                if here > m {
                    m = here;
                }
            }
        }
        let jokers = if joker {
            cnt_exec(cards, 74)
        } else {
            0
        };
        // is there a second pair of a different card?
        let mut tp: bool = false;
        let mut a: usize = 0;
        while a < 5
            invariant
                0 <= a <= 5,
                s == cards.0@,
                s.len() == 5,
                tp ==> two_pairs(s, rules),
                !tp ==> forall|i2: int, j2: int|
                    0 <= i2 < a && 0 <= j2 < 5 ==> !(#[trigger] s[i2] != #[trigger] s[j2]
                        && relevant(s[i2], rules) && relevant(s[j2], rules) && cnt(s, s[i2]) >= 2
                        && cnt(s, s[j2]) >= 2),
            decreases 5 - a,
        {
            let ca = cards.0[a];
            let na = cnt_exec(cards, ca);
            let mut b: usize = 0;
            while b < 5
                invariant
                    0 <= a < 5,
                    0 <= b <= 5,
                    s == cards.0@,
                    s.len() == 5,
                    ca == s[a as int],
                    na == cnt(s, ca),
                    tp ==> two_pairs(s, rules),
                    !tp ==> forall|i2: int, j2: int|
                        0 <= i2 < a && 0 <= j2 < 5 ==> !(#[trigger] s[i2] != #[trigger] s[j2]
                            && relevant(s[i2], rules) && relevant(s[j2], rules) && cnt(s, s[i2])
                            >= 2 && cnt(s, s[j2]) >= 2),
                    !tp ==> forall|j2: int|
                        0 <= j2 < b ==> !(s[a as int] != #[trigger] s[j2] && relevant(
                            s[a as int],
                            rules,
                        ) && relevant(s[j2], rules) && cnt(s, s[a as int]) >= 2 && cnt(s, s[j2])
                            >= 2),
                decreases 5 - b,
            {
                let cb = cards.0[b];
                if ca != cb && (!joker || ca != 74) && (!joker || cb != 74) && na >= 2 {
                    let nb = cnt_exec(cards, cb);
                    if nb >= 2 {
                        tp = true;
                        proof {
                            assert(s[a as int] != s[b as int] && relevant(s[a as int], rules)
                                && relevant(s[b as int], rules) && cnt(s, s[a as int]) >= 2 && cnt(
                                s,
                                s[b as int],
                            ) >= 2);
                            assert(two_pairs(s, rules));
                        }
                    }
                }
                b = b + 1;
            }
            a = a + 1;
        }
        let total = m + jokers;
        if total >= 5 {
            Strength::FiveKind
        } else if total == 4 {
            Strength::FourKind
        } else if total == 3 && tp {
            Strength::FullHouse
        } else if total == 3 {
            Strength::ThreeKind
        } else if total == 2 && tp {
            Strength::TwoPair
        } else if total == 2 {
            Strength::OnePair
        } else {
            Strength::HighCard
        }
    }

    /// Reads one input line `CCCCC bid`.
    ///
    /// Returns the hand exactly when the line has at least two tokens,
    /// the first of five bytes and the second a number fitting `u64`,
    /// and `None` otherwise.
    pub fn new(line: &Vec<u8>, rules: RuleSet) -> (r: Option<Hand>)
        ensures
            match r {
                Some(h) => {
                    &&& hand_ok(line@)
                    &&& h.cards.0@ == split_spec(line@, space_pred())[0]
                    &&& h.bet == hand_bet(line@)
                    &&& h.strength == strength_spec(h.cards.0@, rules)
                    &&& h.rules == rules
                },
                None => !hand_ok(line@),
            },
    {
        let toks = split_ws(line);
        if toks.len() < 2 {
            return None;
        }
        proof {
            assert(views_of(toks@)[0] == toks@[0]@);
            assert(views_of(toks@)[1] == toks@[1]@);
        }
        if toks[0].len() != 5 {
            return None;
        }
        let t0 = &toks[0];
        let cards = Cards([t0[0], t0[1], t0[2], t0[3], t0[4]]);
        proof {
            assert(cards.0@ =~= toks@[0]@);
        }
        let bet = match parse_u64(&toks[1]) {
            None => {
                return None;
            },
            Some(b) => b,
        };
        let strength = Hand::strength(&cards, rules);
        Some(Hand { cards, bet, strength, rules })
    }
}

/// An input line is well formed: at least two tokens, the first of
/// five bytes, the second a number fitting `u64`.
pub open spec fn hand_ok(l: Seq<u8>) -> bool {
    let ts = split_spec(l, space_pred());
    &&& ts.len() >= 2
    &&& ts[0].len() == 5
    &&& ts[1].len() > 0
    &&& all_digits(ts[1])
    &&& digits_val(ts[1]) <= u64::MAX
}

/// The bid on an input line.
pub open spec fn hand_bet(l: Seq<u8>) -> int {
    digits_val(split_spec(l, space_pred())[1])
}

/// A card's strength for tie breaks.
pub fn card_strength(card: u8, rules: RuleSet) -> (v: u64)
    ensures
        v == card_strength_spec(card, rules),
        v <= 14,
{
    if card == 65 {
        14
    } else if card == 75 {
        13
    } else if card == 81 {
        12
    } else if card == 74 {
        match rules {
            RuleSet::Standard => 11,
            RuleSet::Joker => 1,
        }
    } else if card == 84 {
        10
    } else if 50 <= card && card <= 57 {
        (card - 48) as u64
    } else {
        0
    }
}

/// A hand's sort key.
fn key_of(cards: &Cards, rules: RuleSet) -> (k: u64)
    ensures
        k == hand_key(cards.0@, rules),
{
    let st = Hand::strength(cards, rules);
    let rank: u64 = match st {
        Strength::HighCard => 0,
        Strength::OnePair => 1,
        Strength::TwoPair => 2,
        Strength::ThreeKind => 3,
        Strength::FullHouse => 4,
        Strength::FourKind => 5,
        Strength::FiveKind => 6,
    };
    rank * 0x7_5000_0000 + card_strength(cards.0[0], rules) * 0x10_0000 + card_strength(
        cards.0[1],
        rules,
    ) * 0x1_0000 + card_strength(cards.0[2], rules) * 0x1000 + card_strength(cards.0[3], rules)
        * 0x100 + card_strength(cards.0[4], rules) * 0x10
}

/// The mathematical (key, bid) pairs a machine list denotes.
pub open spec fn pairs_model(v: Seq<(u64, u64)>) -> Seq<(int, int)> {
    Seq::new(v.len(), |k: int| (v[k].0 as int, v[k].1 as int))
}

/// Keys never decrease along the list.
pub open spec fn sorted_keys(s: Seq<(int, int)>) -> bool {
    forall|i: int, j: int| 0 <= i <= j < s.len() ==> (#[trigger] s[i]).0 <= (#[trigger] s[j]).0
}

/// Inserts `p` into a key-sorted list, after any equal keys.
pub open spec fn insert_pair(s: Seq<(int, int)>, p: (int, int)) -> Seq<(int, int)>
    decreases s.len(),
{
    if s.len() == 0 {
        seq![p]
    } else if p.0 < s.last().0 {
        insert_pair(s.drop_last(), p).push(s.last())
    } else {
        s.push(p)
    }
}

/// Sorts the hands by key, hands with equal keys keeping their input
/// order.
pub open spec fn sort_pairs(ps: Seq<(int, int)>) -> Seq<(int, int)>
    decreases ps.len(),
{
    if ps.len() == 0 {
        Seq::empty()
    } else {
        insert_pair(sort_pairs(ps.drop_last()), ps.last())
    }
}

/// Where the scan from the right stopped is where `insert_pair`
/// places the element.
proof fn lemma_insert_at(s: Seq<(int, int)>, p: (int, int), idx: int)
    requires
        0 <= idx <= s.len(),
        forall|t: int| idx <= t < s.len() ==> (#[trigger] s[t]).0 > p.0,
        idx == 0 || s[idx - 1].0 <= p.0,
    ensures
        insert_pair(s, p) == s.take(idx).push(p) + s.skip(idx),
    decreases s.len(),
{
    if s.len() == 0 {
        assert(insert_pair(s, p) =~= s.take(idx).push(p) + s.skip(idx));
    } else if idx == s.len() {
        assert(s.take(idx) =~= s);
        assert(s.skip(idx) =~= Seq::<(int, int)>::empty());
        assert(insert_pair(s, p) =~= s.take(idx).push(p) + s.skip(idx));
    } else {
        assert(s[s.len() - 1].0 > p.0);
        let head = s.drop_last();
        assert(forall|t: int| 0 <= t < head.len() ==> head[t] == s[t]);
        lemma_insert_at(head, p, idx);
        assert(head.take(idx) =~= s.take(idx));
        assert(insert_pair(s, p) == (head.take(idx).push(p) + head.skip(idx)).push(s.last()));
        assert((head.take(idx).push(p) + head.skip(idx)).push(s.last()) =~= s.take(idx).push(p)
            + s.skip(idx));
    }
}

/// The winnings of a key-sorted list: each hand's bid times its
/// one-based rank.
pub open spec fn winnings_of(sorted: Seq<(int, int)>) -> int
    decreases sorted.len(),
{
    if sorted.len() == 0 {
        0
    } else {
        winnings_of(sorted.drop_last()) + sorted.len() * sorted.last().1
    }
}

/// With nonnegative bids, partial winnings never exceed the total.
proof fn lemma_winnings_mono(s: Seq<(int, int)>, i: int)
    requires
        0 <= i <= s.len(),
        forall|k: int| 0 <= k < s.len() ==> (#[trigger] s[k]).1 >= 0,
    ensures
        winnings_of(s.take(i)) <= winnings_of(s),
        winnings_of(s) >= 0,
    decreases s.len(),
{
    if s.len() > 0 {
        assert(forall|k: int| 0 <= k < s.len() - 1 ==> s.drop_last()[k] == s[k]);
        assert(s.len() * s.last().1 >= 0) by (nonlinear_arith)
            requires
                s.len() >= 0,
                s.last().1 >= 0,
        ;
        if i == s.len() {
            assert(s.take(i) =~= s);
            lemma_winnings_mono(s.drop_last(), s.len() - 1);
        } else {
            assert(s.take(i) =~= s.drop_last().take(i));
            lemma_winnings_mono(s.drop_last(), i);
        }
    } else {
        assert(s.take(i) =~= s);
    }
}

/// Sorts the (key, bid) list by key, equal keys keeping their order.
#[verifier::loop_isolation(false)]
fn sort_by_key(v: &Vec<(u64, u64)>) -> (r: Vec<(u64, u64)>)
    ensures
        pairs_model(r@) == sort_pairs(pairs_model(v@)),
{
    let ghost pm = pairs_model(v@);
    let mut out: Vec<(u64, u64)> = Vec::new();
    let mut i: usize = 0;
    proof {
        assert(pairs_model(out@) =~= sort_pairs(pm.take(0)));
    }
    while i < v.len()
        invariant
            0 <= i <= v@.len(),
            pm == pairs_model(v@),
            pairs_model(out@) == sort_pairs(pm.take(i as int)),
            sorted_keys(pairs_model(out@)),
            out@.len() == i,
        decreases v@.len() - i,
    {
        let p = v[i];
        let ghost pi = (p.0 as int, p.1 as int);
        proof {
            assert(pm[i as int] == pi);
        }
        let mut idx: usize = out.len();
        while idx > 0 && out[idx - 1].0 > p.0
            invariant
                0 <= idx <= out@.len(),
                forall|t: int|
                    idx <= t < out@.len() ==> (#[trigger] pairs_model(out@)[t]).0 > pi.0,
            decreases idx,
        {
            proof {
                assert(pairs_model(out@)[idx - 1].0 == out@[idx - 1].0 as int);
            }
            idx = idx - 1;
        }
        let ghost om = pairs_model(out@);
        proof {
            if idx > 0 {
                assert(om[idx - 1].0 == out@[idx - 1].0 as int);
            }
            lemma_insert_at(om, pi, idx as int);
        }
        out.insert(idx, p);
        proof {
            assert(pairs_model(out@) =~= om.take(idx as int).push(pi) + om.skip(idx as int));
            assert(pm.take(i + 1).drop_last() =~= pm.take(i as int));
            assert(pm.take(i + 1).last() == pm[i as int]);
            assert(pairs_model(out@) == sort_pairs(pm.take(i + 1)));
            let nm = pairs_model(out@);
            assert forall|a: int, b: int| 0 <= a <= b < nm.len() implies (#[trigger] nm[a]).0 <= (
            #[trigger] nm[b]).0 by {
                if a < idx {
                    assert(nm[a] == om[a]);
                } else if a == idx {
                    assert(nm[a] == pi);
                } else {
                    assert(nm[a] == om[a - 1]);
                }
                if b < idx {
                    assert(nm[b] == om[b]);
                } else if b == idx {
                    assert(nm[b] == pi);
                } else {
                    assert(nm[b] == om[b - 1]);
                }
                if a < idx && idx > 0 {
                    assert(om[a].0 <= om[idx - 1].0);
                }
            }
        }
        i = i + 1;
    }
    proof {
        assert(pm.take(pm.len() as int) =~= pm);
    }
    out
}

/// Every input line is a well-formed hand.
pub open spec fn hands_ok(lv: Seq<Seq<u8>>) -> bool {
    forall|k: int| 0 <= k < lv.len() ==> hand_ok(#[trigger] lv[k])
}

/// The (key, bid) pair of each input line.
pub open spec fn pairs_of(lv: Seq<Seq<u8>>, rules: RuleSet) -> Seq<(int, int)> {
    Seq::new(
        lv.len(),
        |k: int|
            (hand_key(split_spec(lv[k], space_pred())[0], rules), hand_bet(lv[k])),
    )
}

/// The total winnings of the input under the given rules.
pub open spec fn winnings_spec(lv: Seq<Seq<u8>>, rules: RuleSet) -> int {
    winnings_of(sort_pairs(pairs_of(lv, rules)))
}

/// Parses, ranks and scores all hands.
///
/// Returns the winnings exactly when every line is well formed and the
/// total fits in `u64`, and `None` otherwise.
#[verifier::loop_isolation(false)]
fn get_winnings(lines: &Vec<Vec<u8>>, rules: RuleSet) -> (r: Option<u64>)
    ensures
        match r {
            Some(v) => hands_ok(views_of(lines@)) && v == winnings_spec(views_of(lines@), rules),
            None => !hands_ok(views_of(lines@)) || winnings_spec(views_of(lines@), rules)
                > u64::MAX,
        },
{
    let ghost lv = views_of(lines@);
    let mut hands: Vec<(u64, u64)> = Vec::new();
    let mut i: usize = 0;
    while i < lines.len()
        invariant
            0 <= i <= lines@.len(),
            hands@.len() == i,
            forall|k: int| 0 <= k < i ==> hand_ok(#[trigger] lv[k]),
            forall|k: int| 0 <= k < i ==> #[trigger] pairs_model(hands@)[k] == pairs_of(lv, rules)[k],
        decreases lines@.len() - i,
    {
        proof {
            assert(lv[i as int] == lines@[i as int]@);
        }
        let h = match Hand::new(&lines[i], rules) {
            None => {
                return None;
            },
            Some(h) => h,
        };
        let key = key_of(&h.cards, rules);
        let ghost old_hands = hands@;
        hands.push((key, h.bet));
        proof {
            lemma_digits_val_nonneg(split_spec(lv[i as int], space_pred())[1]);
            assert(pairs_model(hands@)[i as int] == (key as int, h.bet as int));
            assert forall|k: int| 0 <= k < i + 1 implies #[trigger] pairs_model(hands@)[k]
                == pairs_of(lv, rules)[k] by {
                if k < i {
                    assert(pairs_model(hands@)[k] == pairs_model(old_hands)[k]);
                }
            }
        }
        i = i + 1;
    }
    proof {
        assert(pairs_model(hands@) =~= pairs_of(lv, rules));
    }
    let sorted = sort_by_key(&hands);
    let ghost sm = sort_pairs(pairs_of(lv, rules));
    proof {
        assert(pairs_model(sorted@) == sm);
        assert(forall|k: int| 0 <= k < sm.len() ==> (#[trigger] sm[k]).1 >= 0) by {
            assert(forall|k: int|
                0 <= k < sorted@.len() ==> (#[trigger] pairs_model(sorted@)[k]).1
                    == sorted@[k].1 as int);
        }
    }
    let mut acc: u64 = 0;
    let mut k: usize = 0;
    proof {
        assert(winnings_of(sm.take(0)) == 0) by {
            assert(sm.take(0) =~= Seq::<(int, int)>::empty());
        }
    }
    while k < sorted.len()
        invariant
            0 <= k <= sorted@.len(),
            acc == winnings_of(sm.take(k as int)),
        decreases sorted@.len() - k,
    {
        let (_, bet) = sorted[k];
        proof {
            assert(sm[k as int].1 == bet as int);
            assert(sm.take(k + 1).drop_last() =~= sm.take(k as int));
            assert(sm.take(k + 1).last() == sm[k as int]);
        }
        let rank = (k as u64) + 1;
        let term = match rank.checked_mul(bet) {
            Some(t) => t,
            None => {
                proof {
                    lemma_winnings_mono(sm, k + 1);
                }
                return None;
            },
        };
        proof {
            assert(term == (k + 1) * (bet as int));
        }
        if acc > u64::MAX - term {
            proof {
                lemma_winnings_mono(sm, k + 1);
            }
            return None;
        }
        acc = acc + term;
        k = k + 1;
    }
    proof {
        assert(sm.take(sm.len() as int) =~= sm);
    }
    Some(acc)
}

/// The total winnings under the standard rules.
///
/// Returns them exactly when every line is well formed and the total
/// fits in `u64`, and `None` otherwise.
pub fn solve_part1(lines: &Vec<Vec<u8>>) -> (r: Option<u64>)
    ensures
        match r {
            Some(v) => hands_ok(views_of(lines@)) && v == winnings_spec(
                views_of(lines@),
                RuleSet::Standard,
            ),
            None => !hands_ok(views_of(lines@)) || winnings_spec(
                views_of(lines@),
                RuleSet::Standard,
            ) > u64::MAX,
        },
{
    get_winnings(lines, RuleSet::Standard)
}

/// The total winnings under the joker rules.
///
/// Returns them exactly when every line is well formed and the total
/// fits in `u64`, and `None` otherwise.
pub fn solve_part2(lines: &Vec<Vec<u8>>) -> (r: Option<u64>)
    ensures
        match r {
            Some(v) => hands_ok(views_of(lines@)) && v == winnings_spec(
                views_of(lines@),
                RuleSet::Joker,
            ),
            None => !hands_ok(views_of(lines@)) || winnings_spec(
                views_of(lines@),
                RuleSet::Joker,
            ) > u64::MAX,
        },
{
    get_winnings(lines, RuleSet::Joker)
}

} // verus!
