//! Ranking five-card poker hands (high) and eight-or-better low hands.
use vstd::prelude::*;

use crate::cards::{lemma_rank_of_value, lemma_rank_value_bounds, rank_of_value, rank_value, Card, Rank, Suit};

verus! {

/// The category of a five-card hand together with the ranks that break ties
/// within the category, most significant first. Variants are declared from
/// weakest to strongest.
#[derive(Debug, Clone, Copy, PartialEq, Eq, PartialOrd, Ord, Structural)]
pub enum HandRank {
    HighCard(Rank, Rank, Rank, Rank, Rank),
    OnePair(Rank, Rank, Rank, Rank),
    TwoPair(Rank, Rank, Rank),
    ThreeOfAKind(Rank, Rank, Rank),
    Straight(Rank),
    Flush(Rank, Rank, Rank, Rank, Rank),
    FullHouse(Rank, Rank),
    FourOfAKind(Rank, Rank),
    StraightFlush(Rank),
}

// ---------------------------------------------------------------------------
// Strength of a hand rank
// ---------------------------------------------------------------------------

/// A number that orders hand ranks by strength: category first (in declaration
/// order), then the tie-break ranks in order, each as a base-15 digit.
pub open spec fn hand_rank_score(h: HandRank) -> int {
    match h {
        HandRank::StraightFlush(r) => 8000000 + rank_value(r),
        HandRank::FourOfAKind(a, b) => 7000000 + rank_value(a) * 15 + rank_value(b),
        HandRank::FullHouse(a, b) => 6000000 + rank_value(a) * 15 + rank_value(b),
        HandRank::Flush(a, b, c, d, e) => 5000000 + rank_value(a) * 50625 + rank_value(b) * 3375
            + rank_value(c) * 225 + rank_value(d) * 15 + rank_value(e),
        HandRank::Straight(r) => 4000000 + rank_value(r),
        HandRank::ThreeOfAKind(a, b, c) => 3000000 + rank_value(a) * 225 + rank_value(b) * 15
            + rank_value(c),
        HandRank::TwoPair(a, b, c) => 2000000 + rank_value(a) * 225 + rank_value(b) * 15
            + rank_value(c),
        HandRank::OnePair(a, b, c, d) => 1000000 + rank_value(a) * 3375 + rank_value(b) * 225
            + rank_value(c) * 15 + rank_value(d),
        HandRank::HighCard(a, b, c, d, e) => rank_value(a) * 50625 + rank_value(b) * 3375
            + rank_value(c) * 225 + rank_value(d) * 15 + rank_value(e),
    }
}

/// `a` is a strictly stronger hand rank than `b`.
pub open spec fn beats(a: HandRank, b: HandRank) -> bool {
    hand_rank_score(a) > hand_rank_score(b)
}

/// The weakest possible hand rank: five deuces as a high-card hand.
pub open spec fn weakest_hand_rank() -> HandRank {
    HandRank::HighCard(Rank::Two, Rank::Two, Rank::Two, Rank::Two, Rank::Two)
}

proof fn lemma_digits5(a1: int, a2: int, a3: int, a4: int, a5: int, b1: int, b2: int, b3: int, b4: int, b5: int)
    requires
        2 <= a1 <= 14, 2 <= a2 <= 14, 2 <= a3 <= 14, 2 <= a4 <= 14, 2 <= a5 <= 14,
        2 <= b1 <= 14, 2 <= b2 <= 14, 2 <= b3 <= 14, 2 <= b4 <= 14, 2 <= b5 <= 14,
        a1 * 50625 + a2 * 3375 + a3 * 225 + a4 * 15 + a5 == b1 * 50625 + b2 * 3375 + b3 * 225
            + b4 * 15 + b5,
    ensures
        a1 == b1 && a2 == b2 && a3 == b3 && a4 == b4 && a5 == b5,
{
    assert(a1 == b1);
    assert(a2 == b2);
    assert(a3 == b3);
    assert(a4 == b4);
}

/// Every hand rank scores within its category's band of a million.
pub proof fn lemma_score_bounds(h: HandRank)
    ensures
        hand_rank_score(weakest_hand_rank()) <= hand_rank_score(h) < 9000000,
        hand_rank_score(h) == hand_rank_score(weakest_hand_rank()) ==> h == weakest_hand_rank(),
{
    match h {
        HandRank::StraightFlush(a) => { lemma_rank_value_bounds(a); },
        HandRank::FourOfAKind(a, b) => { lemma_rank_value_bounds(a); lemma_rank_value_bounds(b); },
        HandRank::FullHouse(a, b) => { lemma_rank_value_bounds(a); lemma_rank_value_bounds(b); },
        HandRank::Flush(a, b, c, d, e) => {
            lemma_rank_value_bounds(a); lemma_rank_value_bounds(b); lemma_rank_value_bounds(c);
            lemma_rank_value_bounds(d); lemma_rank_value_bounds(e);
        },
        HandRank::Straight(a) => { lemma_rank_value_bounds(a); },
        HandRank::ThreeOfAKind(a, b, c) => {
            lemma_rank_value_bounds(a); lemma_rank_value_bounds(b); lemma_rank_value_bounds(c);
        },
        HandRank::TwoPair(a, b, c) => {
            lemma_rank_value_bounds(a); lemma_rank_value_bounds(b); lemma_rank_value_bounds(c);
        },
        HandRank::OnePair(a, b, c, d) => {
            lemma_rank_value_bounds(a); lemma_rank_value_bounds(b); lemma_rank_value_bounds(c);
            lemma_rank_value_bounds(d);
        },
        HandRank::HighCard(a, b, c, d, e) => {
            lemma_rank_value_bounds(a); lemma_rank_value_bounds(b); lemma_rank_value_bounds(c);
            lemma_rank_value_bounds(d); lemma_rank_value_bounds(e);
            if hand_rank_score(h) == hand_rank_score(weakest_hand_rank()) {
                lemma_digits5(rank_value(a), rank_value(b), rank_value(c), rank_value(d), rank_value(e), 2, 2, 2, 2, 2);
            }
        },
    }
}

/// Category of a hand rank: 0 for high card up to 8 for straight flush.
pub open spec fn hand_category(h: HandRank) -> int {
    match h {
        HandRank::HighCard(..) => 0,
        HandRank::OnePair(..) => 1,
        HandRank::TwoPair(..) => 2,
        HandRank::ThreeOfAKind(..) => 3,
        HandRank::Straight(..) => 4,
        HandRank::Flush(..) => 5,
        HandRank::FullHouse(..) => 6,
        HandRank::FourOfAKind(..) => 7,
        HandRank::StraightFlush(..) => 8,
    }
}

/// The score is the category in the millions plus a tie-break below a million.
proof fn lemma_score_split(h: HandRank)
    ensures
        0 <= hand_rank_score(h) - hand_category(h) * 1000000 < 1000000,
{
    lemma_score_bounds(h);
    match h {
        HandRank::StraightFlush(a) => { lemma_rank_value_bounds(a); },
        HandRank::FourOfAKind(a, b) => { lemma_rank_value_bounds(a); lemma_rank_value_bounds(b); },
        HandRank::FullHouse(a, b) => { lemma_rank_value_bounds(a); lemma_rank_value_bounds(b); },
        HandRank::Flush(a, b, c, d, e) => {
            lemma_rank_value_bounds(a); lemma_rank_value_bounds(b); lemma_rank_value_bounds(c);
            lemma_rank_value_bounds(d); lemma_rank_value_bounds(e);
        },
        HandRank::Straight(a) => { lemma_rank_value_bounds(a); },
        HandRank::ThreeOfAKind(a, b, c) => {
            lemma_rank_value_bounds(a); lemma_rank_value_bounds(b); lemma_rank_value_bounds(c);
        },
        HandRank::TwoPair(a, b, c) => {
            lemma_rank_value_bounds(a); lemma_rank_value_bounds(b); lemma_rank_value_bounds(c);
        },
        HandRank::OnePair(a, b, c, d) => {
            lemma_rank_value_bounds(a); lemma_rank_value_bounds(b); lemma_rank_value_bounds(c);
            lemma_rank_value_bounds(d);
        },
        HandRank::HighCard(a, b, c, d, e) => {
            lemma_rank_value_bounds(a); lemma_rank_value_bounds(b); lemma_rank_value_bounds(c);
            lemma_rank_value_bounds(d); lemma_rank_value_bounds(e);
        },
    }
}

proof fn lemma_rv(r: Rank)
    ensures
        2 <= rank_value(r) <= 14,
{
}

proof fn lemma_rank_eq(a: Rank, b: Rank)
    requires
        rank_value(a) == rank_value(b),
    ensures
        a == b,
{
    lemma_rank_value_bounds(a);
    lemma_rank_value_bounds(b);
}

proof fn lemma_rank_digits(a1: Rank, a2: Rank, a3: Rank, a4: Rank, a5: Rank, b1: Rank, b2: Rank, b3: Rank, b4: Rank, b5: Rank)
    requires
        rank_value(a1) * 50625 + rank_value(a2) * 3375 + rank_value(a3) * 225 + rank_value(a4) * 15
            + rank_value(a5) == rank_value(b1) * 50625 + rank_value(b2) * 3375 + rank_value(b3) * 225
            + rank_value(b4) * 15 + rank_value(b5),
    ensures
        a1 == b1 && a2 == b2 && a3 == b3 && a4 == b4 && a5 == b5,
{
    lemma_rv(a1); lemma_rv(a2); lemma_rv(a3); lemma_rv(a4); lemma_rv(a5);
    lemma_rv(b1); lemma_rv(b2); lemma_rv(b3); lemma_rv(b4); lemma_rv(b5);
    lemma_digits5(rank_value(a1), rank_value(a2), rank_value(a3), rank_value(a4), rank_value(a5),
        rank_value(b1), rank_value(b2), rank_value(b3), rank_value(b4), rank_value(b5));
    lemma_rank_eq(a1, b1);
    lemma_rank_eq(a2, b2);
    lemma_rank_eq(a3, b3);
    lemma_rank_eq(a4, b4);
    lemma_rank_eq(a5, b5);
}

proof fn lemma_same_straightflush(x: HandRank, y: HandRank)
    requires
        x is StraightFlush,
        y is StraightFlush,
        hand_rank_score(x) == hand_rank_score(y),
    ensures
        x == y,
{
    let t = Rank::Two;
    lemma_rank_digits(t, t, t, t, x->StraightFlush_0, t, t, t, t, y->StraightFlush_0);
}

proof fn lemma_same_fourofakind(x: HandRank, y: HandRank)
    requires
        x is FourOfAKind,
        y is FourOfAKind,
        hand_rank_score(x) == hand_rank_score(y),
    ensures
        x == y,
{
    let t = Rank::Two;
    lemma_rank_digits(t, t, t, x->FourOfAKind_0, x->FourOfAKind_1, t, t, t, y->FourOfAKind_0, y->FourOfAKind_1);
}

proof fn lemma_same_fullhouse(x: HandRank, y: HandRank)
    requires
        x is FullHouse,
        y is FullHouse,
        hand_rank_score(x) == hand_rank_score(y),
    ensures
        x == y,
{
    let t = Rank::Two;
    lemma_rank_digits(t, t, t, x->FullHouse_0, x->FullHouse_1, t, t, t, y->FullHouse_0, y->FullHouse_1);
}

#[verifier::rlimit(40)]
proof fn lemma_same_flush(x: HandRank, y: HandRank)
    requires
        x is Flush,
        y is Flush,
        hand_rank_score(x) == hand_rank_score(y),
    ensures
        x == y,
{
    assert(hand_rank_score(x) - 5000000 == hand_rank_score(y) - 5000000);
    lemma_rank_digits(x->Flush_0, x->Flush_1, x->Flush_2, x->Flush_3, x->Flush_4, y->Flush_0, y->Flush_1, y->Flush_2, y->Flush_3, y->Flush_4);
}

proof fn lemma_same_straight(x: HandRank, y: HandRank)
    requires
        x is Straight,
        y is Straight,
        hand_rank_score(x) == hand_rank_score(y),
    ensures
        x == y,
{
    let t = Rank::Two;
    lemma_rank_digits(t, t, t, t, x->Straight_0, t, t, t, t, y->Straight_0);
}

proof fn lemma_same_threeofakind(x: HandRank, y: HandRank)
    requires
        x is ThreeOfAKind,
        y is ThreeOfAKind,
        hand_rank_score(x) == hand_rank_score(y),
    ensures
        x == y,
{
    let t = Rank::Two;
    lemma_rank_digits(t, t, x->ThreeOfAKind_0, x->ThreeOfAKind_1, x->ThreeOfAKind_2, t, t, y->ThreeOfAKind_0, y->ThreeOfAKind_1, y->ThreeOfAKind_2);
}

proof fn lemma_same_twopair(x: HandRank, y: HandRank)
    requires
        x is TwoPair,
        y is TwoPair,
        hand_rank_score(x) == hand_rank_score(y),
    ensures
        x == y,
{
    let t = Rank::Two;
    lemma_rank_digits(t, t, x->TwoPair_0, x->TwoPair_1, x->TwoPair_2, t, t, y->TwoPair_0, y->TwoPair_1, y->TwoPair_2);
}

proof fn lemma_same_onepair(x: HandRank, y: HandRank)
    requires
        x is OnePair,
        y is OnePair,
        hand_rank_score(x) == hand_rank_score(y),
    ensures
        x == y,
{
    let t = Rank::Two;
    lemma_rank_digits(t, x->OnePair_0, x->OnePair_1, x->OnePair_2, x->OnePair_3, t, y->OnePair_0, y->OnePair_1, y->OnePair_2, y->OnePair_3);
}

proof fn lemma_same_highcard(x: HandRank, y: HandRank)
    requires
        x is HighCard,
        y is HighCard,
        hand_rank_score(x) == hand_rank_score(y),
    ensures
        x == y,
{
    let t = Rank::Two;
    lemma_rank_digits(x->HighCard_0, x->HighCard_1, x->HighCard_2, x->HighCard_3, x->HighCard_4, y->HighCard_0, y->HighCard_1, y->HighCard_2, y->HighCard_3, y->HighCard_4);
}

proof fn lemma_same_category_same_rank(x: HandRank, y: HandRank)
    requires
        hand_category(x) == hand_category(y),
        hand_rank_score(x) == hand_rank_score(y),
    ensures
        x == y,
{
    if x is StraightFlush {
        lemma_same_straightflush(x, y);
    }
    if x is FourOfAKind {
        lemma_same_fourofakind(x, y);
    }
    if x is FullHouse {
        lemma_same_fullhouse(x, y);
    }
    if x is Flush {
        lemma_same_flush(x, y);
    }
    if x is Straight {
        lemma_same_straight(x, y);
    }
    if x is ThreeOfAKind {
        lemma_same_threeofakind(x, y);
    }
    if x is TwoPair {
        lemma_same_twopair(x, y);
    }
    if x is OnePair {
        lemma_same_onepair(x, y);
    }
    if x is HighCard {
        lemma_same_highcard(x, y);
    }
}

/// Different hand ranks have different scores, so comparing scores is a
/// total order on hand ranks.
pub proof fn law_score_injective(x: HandRank, y: HandRank)
    ensures
        hand_rank_score(x) == hand_rank_score(y) ==> x == y,
{
    if hand_rank_score(x) == hand_rank_score(y) {
        lemma_score_split(x);
        lemma_score_split(y);
        assert(hand_category(x) == hand_category(y));
        lemma_same_category_same_rank(x, y);
    }
}

// ---------------------------------------------------------------------------
// What a five-card hand is
// ---------------------------------------------------------------------------

/// How many of `cards` have rank value `v`.
pub open spec fn rank_count(cards: Seq<Card>, v: int) -> int
    decreases cards.len(),
{
    if cards.len() == 0 {
        0
    } else {
        rank_count(cards.drop_last(), v) + if rank_value(cards.last().rank) == v {
            1int
        } else {
            0int
        }
    }
}

/// How many of `cards` have rank value at least `lo`.
pub open spec fn count_at_least(cards: Seq<Card>, lo: int) -> int
    decreases cards.len(),
{
    if cards.len() == 0 {
        0
    } else {
        count_at_least(cards.drop_last(), lo) + if rank_value(cards.last().rank) >= lo {
            1int
        } else {
            0int
        }
    }
}

/// The rank values from `lo` up to 14 that occur exactly `c` times in
/// `cards`, highest first.
pub open spec fn values_with_count(cards: Seq<Card>, c: int, lo: int) -> Seq<int>
    decreases 15 - lo,
{
    if lo > 14 {
        Seq::empty()
    } else {
        let higher = values_with_count(cards, c, lo + 1);
        if rank_count(cards, lo) == c {
            higher.push(lo)
        } else {
            higher
        }
    }
}

/// The rank values of `cards` that are at least `lo`, with multiplicity,
/// highest first.
pub open spec fn ranks_desc(cards: Seq<Card>, lo: int) -> Seq<int>
    decreases 15 - lo,
{
    if lo > 14 {
        Seq::empty()
    } else {
        ranks_desc(cards, lo + 1) + Seq::new(rank_count(cards, lo) as nat, |i: int| lo)
    }
}

/// All cards share one suit.
pub open spec fn is_flush(cards: Seq<Card>) -> bool {
    forall|i: int| 0 <= i < cards.len() ==> #[trigger] cards[i].suit == cards[0].suit
}

/// For five rank values sorted highest first: the top rank of the straight
/// they form, if they form one. Five distinct consecutive values make a
/// straight topped by the highest; Ace-5-4-3-2 is the straight topped by Five.
pub open spec fn straight_high(d: Seq<int>) -> Option<int> {
    if d[0] > d[1] && d[1] > d[2] && d[2] > d[3] && d[3] > d[4] {
        if d[0] - d[4] == 4 {
            Some(d[0])
        } else if d[0] == 14 && d[1] == 5 {
            Some(5)
        } else {
            None
        }
    } else {
        None
    }
}

/// The rank of five cards. Categories are tried from strongest to weakest;
/// tie-break ranks list the grouped ranks (largest group first, then higher
/// rank first) followed by the unpaired ranks from high to low.
pub open spec fn hand_rank_of(cards: Seq<Card>) -> HandRank {
    let d = ranks_desc(cards, 2);
    let q1 = values_with_count(cards, 1, 2);
    let q2 = values_with_count(cards, 2, 2);
    let q3 = values_with_count(cards, 3, 2);
    let q4 = values_with_count(cards, 4, 2);
    let sh = straight_high(d);
    let fl = is_flush(cards);
    let r = |v: int| rank_of_value(v);
    if sh is Some && fl {
        HandRank::StraightFlush(r(sh->0))
    } else if q4.len() > 0 {
        HandRank::FourOfAKind(r(q4[0]), r(q1[0]))
    } else if q3.len() > 0 && q2.len() > 0 {
        HandRank::FullHouse(r(q3[0]), r(q2[0]))
    } else if fl {
        HandRank::Flush(r(d[0]), r(d[1]), r(d[2]), r(d[3]), r(d[4]))
    } else if sh is Some {
        HandRank::Straight(r(sh->0))
    } else if q3.len() > 0 {
        HandRank::ThreeOfAKind(r(q3[0]), r(q1[0]), r(q1[1]))
    } else if q2.len() >= 2 {
        HandRank::TwoPair(r(q2[0]), r(q2[1]), r(q1[0]))
    } else if q2.len() == 1 {
        HandRank::OnePair(r(q2[0]), r(q1[0]), r(q1[1]), r(q1[2]))
    } else {
        HandRank::HighCard(r(d[0]), r(d[1]), r(d[2]), r(d[3]), r(d[4]))
    }
}

/// A sequence of bytes read as integers.
pub open spec fn as_ints(s: Seq<u8>) -> Seq<int> {
    s.map_values(|x: u8| x as int)
}

// ---------------------------------------------------------------------------
// Facts about counting
// ---------------------------------------------------------------------------

proof fn lemma_rank_count_bounds(cards: Seq<Card>, v: int)
    ensures
        0 <= rank_count(cards, v) <= cards.len(),
    decreases cards.len(),
{
    if cards.len() > 0 {
        lemma_rank_count_bounds(cards.drop_last(), v);
    }
}

proof fn lemma_count_at_least_split(cards: Seq<Card>, lo: int)
    ensures
        count_at_least(cards, lo) == rank_count(cards, lo) + count_at_least(cards, lo + 1),
    decreases cards.len(),
{
    if cards.len() > 0 {
        lemma_count_at_least_split(cards.drop_last(), lo);
    }
}

proof fn lemma_count_at_least_ends(cards: Seq<Card>)
    ensures
        count_at_least(cards, 2) == cards.len(),
        count_at_least(cards, 15) == 0,
    decreases cards.len(),
{
    if cards.len() > 0 {
        lemma_count_at_least_ends(cards.drop_last());
        lemma_rank_value_bounds(cards.last().rank);
    }
}

proof fn lemma_ranks_desc_len(cards: Seq<Card>, lo: int)
    requires
        2 <= lo <= 15,
    ensures
        ranks_desc(cards, lo).len() == count_at_least(cards, lo),
    decreases 15 - lo,
{
    if lo <= 14 {
        lemma_ranks_desc_len(cards, lo + 1);
        lemma_count_at_least_split(cards, lo);
        lemma_rank_count_bounds(cards, lo);
    } else {
        lemma_count_at_least_ends(cards);
    }
}

proof fn lemma_groups_sum(cards: Seq<Card>, lo: int)
    requires
        2 <= lo <= 15,
        cards.len() <= 5,
    ensures
        ranks_desc(cards, lo).len() == values_with_count(cards, 1, lo).len() + 2 * values_with_count(
            cards,
            2,
            lo,
        ).len() + 3 * values_with_count(cards, 3, lo).len() + 4 * values_with_count(cards, 4, lo).len()
            + 5 * values_with_count(cards, 5, lo).len(),
    decreases 15 - lo,
{
    if lo <= 14 {
        lemma_groups_sum(cards, lo + 1);
        lemma_rank_count_bounds(cards, lo);
    }
}

proof fn lemma_values_in_range(cards: Seq<Card>, c: int, lo: int)
    requires
        lo >= 2,
    ensures
        forall|i: int|
            0 <= i < values_with_count(cards, c, lo).len() ==> lo <= #[trigger] values_with_count(
                cards,
                c,
                lo,
            )[i] <= 14,
        forall|i: int|
            0 <= i < ranks_desc(cards, lo).len() ==> lo <= #[trigger] ranks_desc(cards, lo)[i] <= 14,
    decreases 15 - lo,
{
    if lo <= 14 {
        lemma_values_in_range(cards, c, lo + 1);
        let hv = values_with_count(cards, c, lo + 1);
        let v = values_with_count(cards, c, lo);
        assert forall|i: int| 0 <= i < v.len() implies lo <= #[trigger] v[i] <= 14 by {
            if i < hv.len() {
                assert(v[i] == hv[i]);
            }
        }
        let hd = ranks_desc(cards, lo + 1);
        let d = ranks_desc(cards, lo);
        assert forall|i: int| 0 <= i < d.len() implies lo <= #[trigger] d[i] <= 14 by {
            if i < hd.len() {
                assert(d[i] == hd[i]);
            }
        }
    }
}

// ---------------------------------------------------------------------------
// Executable ranking
// ---------------------------------------------------------------------------

/// Ranks exactly five cards as a poker hand.
pub fn evaluate_5_cards(cards: &[Card; 5]) -> (r: HandRank)
    ensures
        r == hand_rank_of(cards@),
{
    let ghost cs = cards@;
    // How many cards of each rank value.
    let mut counts: Vec<u8> = Vec::new();
    let mut v: usize = 0;
    while v < 15
        invariant
            v <= 15,
            counts@.len() == v,
            forall|w: int| 0 <= w < v ==> counts@[w] == 0,
        decreases 15 - v,
    {
        counts.push(0);
        v = v + 1;
    }
    let mut i: usize = 0;
    while i < 5
        invariant
            i <= 5,
            cs == cards@,
            cs.len() == 5,
            counts@.len() == 15,
            forall|w: int| 0 <= w < 15 ==> #[trigger] counts@[w] == rank_count(cs.take(i as int), w),
        decreases 5 - i,
    {
        let rv = cards[i].rank.value() as usize;
        proof {
            lemma_rank_count_bounds(cs.take(i as int), rv as int);
            assert(cs.take(i + 1).drop_last() == cs.take(i as int));
        }
        let old_count = counts[rv];
        counts.set(rv, old_count + 1);
        i = i + 1;
    }
    assert(cs.take(5) == cs);
    // Ranks grouped by how often they occur, and all ranks, highest first.
    let mut desc: Vec<u8> = Vec::new();
    let mut q1: Vec<u8> = Vec::new();
    let mut q2: Vec<u8> = Vec::new();
    let mut q3: Vec<u8> = Vec::new();
    let mut q4: Vec<u8> = Vec::new();
    let mut w: u8 = 14;
    while w >= 2
        invariant
            1 <= w <= 14,
            counts@.len() == 15,
            forall|x: int| 0 <= x < 15 ==> #[trigger] counts@[x] == rank_count(cs, x),
            as_ints(desc@) == ranks_desc(cs, w + 1),
            as_ints(q1@) == values_with_count(cs, 1, w + 1),
            as_ints(q2@) == values_with_count(cs, 2, w + 1),
            as_ints(q3@) == values_with_count(cs, 3, w + 1),
            as_ints(q4@) == values_with_count(cs, 4, w + 1),
        decreases w,
    {
        let c = counts[w as usize];
        if c == 1 {
            q1.push(w);
        } else if c == 2 {
            q2.push(w);
        } else if c == 3 {
            q3.push(w);
        } else if c == 4 {
            q4.push(w);
        }
        proof {
            assert(as_ints(q1@) =~= values_with_count(cs, 1, w as int));
            assert(as_ints(q2@) =~= values_with_count(cs, 2, w as int));
            assert(as_ints(q3@) =~= values_with_count(cs, 3, w as int));
            assert(as_ints(q4@) =~= values_with_count(cs, 4, w as int));
        }
        let mut k: u8 = 0;
        while k < c
            invariant
                2 <= w <= 14,
                k <= c,
                c == rank_count(cs, w as int),
                as_ints(desc@) == ranks_desc(cs, w + 1) + Seq::new(k as nat, |j: int| w as int),
            decreases c - k,
        {
            let ghost before = desc@;
            desc.push(w);
            k = k + 1;
            assert(as_ints(desc@) =~= as_ints(before).push(w as int));
            assert(as_ints(desc@) =~= ranks_desc(cs, w + 1) + Seq::new(k as nat, |j: int| w as int));
        }
        w = w - 1;
    }
    proof {
        lemma_ranks_desc_len(cs, 2);
        lemma_count_at_least_ends(cs);
        lemma_groups_sum(cs, 2);
        lemma_values_in_range(cs, 1, 2);
        lemma_values_in_range(cs, 2, 2);
        lemma_values_in_range(cs, 3, 2);
        lemma_values_in_range(cs, 4, 2);
        assert(desc@.len() == 5);
    }
    let flush = cards[0].suit == cards[1].suit && cards[0].suit == cards[2].suit && cards[0].suit
        == cards[3].suit && cards[0].suit == cards[4].suit;
    assert(flush == is_flush(cs));
    let distinct = desc[0] > desc[1] && desc[1] > desc[2] && desc[2] > desc[3] && desc[3] > desc[4];
    let straight: Option<u8> = if distinct {
        if desc[0] - desc[4] == 4 {
            Some(desc[0])
        } else if desc[0] == 14 && desc[1] == 5 {
            Some(5)
        } else {
            None
        }
    } else {
        None
    };
    proof {
        let d = ranks_desc(cs, 2);
        assert(d[0] == desc@[0] as int && d[1] == desc@[1] as int && d[2] == desc@[2] as int
            && d[3] == desc@[3] as int && d[4] == desc@[4] as int);
        assert(straight is Some <==> straight_high(d) is Some);
        assert(straight is Some ==> straight_high(d)->0 == straight->0 as int);
        assert(q1@.len() > 0 ==> q1@[0] as int == values_with_count(cs, 1, 2)[0]);
        assert(q1@.len() > 1 ==> q1@[1] as int == values_with_count(cs, 1, 2)[1]);
        assert(q1@.len() > 2 ==> q1@[2] as int == values_with_count(cs, 1, 2)[2]);
        assert(q2@.len() > 0 ==> q2@[0] as int == values_with_count(cs, 2, 2)[0]);
        assert(q2@.len() > 1 ==> q2@[1] as int == values_with_count(cs, 2, 2)[1]);
        assert(q3@.len() > 0 ==> q3@[0] as int == values_with_count(cs, 3, 2)[0]);
        assert(q4@.len() > 0 ==> q4@[0] as int == values_with_count(cs, 4, 2)[0]);
    }
    if let Some(h) = straight {
        if flush {
            return HandRank::StraightFlush(Rank::from_value(h));
        }
    }
    if q4.len() > 0 {
        return HandRank::FourOfAKind(Rank::from_value(q4[0]), Rank::from_value(q1[0]));
    }
    if q3.len() > 0 && q2.len() > 0 {
        return HandRank::FullHouse(Rank::from_value(q3[0]), Rank::from_value(q2[0]));
    }
    if flush {
        return HandRank::Flush(
            Rank::from_value(desc[0]),
            Rank::from_value(desc[1]),
            Rank::from_value(desc[2]),
            Rank::from_value(desc[3]),
            Rank::from_value(desc[4]),
        );
    }
    if let Some(h) = straight {
        return HandRank::Straight(Rank::from_value(h));
    }
    if q3.len() > 0 {
        return HandRank::ThreeOfAKind(
            Rank::from_value(q3[0]),
            Rank::from_value(q1[0]),
            Rank::from_value(q1[1]),
        );
    }
    if q2.len() >= 2 {
        return HandRank::TwoPair(
            Rank::from_value(q2[0]),
            Rank::from_value(q2[1]),
            Rank::from_value(q1[0]),
        );
    }
    if q2.len() == 1 {
        return HandRank::OnePair(
            Rank::from_value(q2[0]),
            Rank::from_value(q1[0]),
            Rank::from_value(q1[1]),
            Rank::from_value(q1[2]),
        );
    }
    HandRank::HighCard(
        Rank::from_value(desc[0]),
        Rank::from_value(desc[1]),
        Rank::from_value(desc[2]),
        Rank::from_value(desc[3]),
        Rank::from_value(desc[4]),
    )
}

// ---------------------------------------------------------------------------
// Eight-or-better low hands
// ---------------------------------------------------------------------------

/// Value of a rank when playing low: Ace counts 1, every other rank its value.
pub open spec fn low_value(r: Rank) -> int {
    if r == Rank::Ace {
        1
    } else {
        rank_value(r)
    }
}

/// The rank that plays low value `v` (Ace for 1).
pub open spec fn rank_of_low_value(v: int) -> Rank {
    if v == 1 {
        Rank::Ace
    } else {
        rank_of_value(v)
    }
}

/// Some card of `cards` plays low value `v`.
pub open spec fn has_low_value(cards: Seq<Card>, v: int) -> bool {
    exists|i: int| 0 <= i < cards.len() && low_value(#[trigger] cards[i].rank) == v
}

/// The distinct low values from 1 up to `hi` that `cards` hold, lowest first.
pub open spec fn low_values_upto(cards: Seq<Card>, hi: int) -> Seq<int>
    decreases hi,
{
    if hi < 1 {
        Seq::empty()
    } else {
        let lower = low_values_upto(cards, hi - 1);
        if has_low_value(cards, hi) {
            lower.push(hi)
        } else {
            lower
        }
    }
}

/// The eight-or-better low of five cards: their five lowest distinct low
/// values, if they hold at least five distinct values from Ace to Eight,
/// listed from the highest of the five down (Ace last).
pub open spec fn low_hand_of(cards: Seq<Card>) -> Option<Seq<Rank>> {
    let l = low_values_upto(cards, 8);
    if l.len() < 5 {
        None
    } else {
        Some(
            seq![
                rank_of_low_value(l[4]),
                rank_of_low_value(l[3]),
                rank_of_low_value(l[2]),
                rank_of_low_value(l[1]),
                rank_of_low_value(l[0]),
            ],
        )
    }
}

/// The spec-level view of an optional low hand.
pub open spec fn low_view(r: Option<[Rank; 5]>) -> Option<Seq<Rank>> {
    match r {
        Some(a) => Some(a@),
        None => None,
    }
}

proof fn lemma_low_values_in_range(cards: Seq<Card>, hi: int)
    ensures
        forall|i: int|
            0 <= i < low_values_upto(cards, hi).len() ==> 1 <= #[trigger] low_values_upto(
                cards,
                hi,
            )[i] <= hi,
        forall|i: int, j: int|
            0 <= i < j < low_values_upto(cards, hi).len() ==> #[trigger] low_values_upto(cards, hi)[i]
                < #[trigger] low_values_upto(cards, hi)[j],
    decreases hi,
{
    if hi >= 1 {
        lemma_low_values_in_range(cards, hi - 1);
        let lo = low_values_upto(cards, hi - 1);
        let l = low_values_upto(cards, hi);
        assert forall|i: int| 0 <= i < l.len() implies 1 <= #[trigger] l[i] <= hi by {
            if i < lo.len() {
                assert(l[i] == lo[i]);
            }
        }
        assert forall|i: int, j: int| 0 <= i < j < l.len() implies #[trigger] l[i] < #[trigger] l[j] by {
            assert(l[i] == lo[i]);
            if j < lo.len() {
                assert(l[j] == lo[j]);
            }
        }
    }
}

/// Low value of a rank, as used in executable code.
pub fn low_value_of(r: Rank) -> (v: u8)
    ensures
        v == low_value(r),
        1 <= v <= 13,
{
    match r {
        Rank::Ace => 1,
        _ => r.value(),
    }
}

fn rank_from_low_value(v: u8) -> (r: Rank)
    requires
        1 <= v <= 14,
    ensures
        r == rank_of_low_value(v as int),
{
    if v == 1 {
        Rank::Ace
    } else {
        Rank::from_value(v)
    }
}

/// The eight-or-better low five cards make, if any: the five lowest distinct
/// low values (Ace low, nothing above Eight), listed from high to low.
pub fn evaluate_5_cards_low(cards: &[Card; 5]) -> (r: Option<[Rank; 5]>)
    ensures
        low_view(r) == low_hand_of(cards@),
{
    let ghost cs = cards@;
    let mut lows: Vec<u8> = Vec::new();
    let mut v: u8 = 1;
    while v <= 8
        invariant
            1 <= v <= 9,
            cs == cards@,
            cs.len() == 5,
            as_ints(lows@) == low_values_upto(cs, v - 1),
        decreases 9 - v,
    {
        let mut found = false;
        let mut i: usize = 0;
        while i < 5
            invariant
                i <= 5,
                1 <= v <= 8,
                cs == cards@,
                cs.len() == 5,
                found <==> exists|j: int| 0 <= j < i && low_value(#[trigger] cs[j].rank) == v,
            decreases 5 - i,
        {
            if low_value_of(cards[i].rank) == v {
                found = true;
            }
            i = i + 1;
        }
        let ghost before = lows@;
        if found {
            lows.push(v);
        }
        assert(as_ints(lows@) =~= low_values_upto(cs, v as int));
        v = v + 1;
    }
    proof {
        lemma_low_values_in_range(cs, 8);
    }
    if lows.len() < 5 {
        return None;
    }
    proof {
        let l = low_values_upto(cs, 8);
        assert(forall|i: int| 0 <= i < 5 ==> #[trigger] lows@[i] as int == l[i]);
    }
    let out = [
        rank_from_low_value(lows[4]),
        rank_from_low_value(lows[3]),
        rank_from_low_value(lows[2]),
        rank_from_low_value(lows[1]),
        rank_from_low_value(lows[0]),
    ];
    assert(out@ =~= low_hand_of(cs)->0);
    Some(out)
}


// ---------------------------------------------------------------------------
// Order independence
// ---------------------------------------------------------------------------

proof fn lemma_rank_count_remove(s: Seq<Card>, k: int, v: int)
    requires
        0 <= k < s.len(),
    ensures
        rank_count(s, v) == rank_count(s.remove(k), v) + if rank_value(s[k].rank) == v {
            1int
        } else {
            0int
        },
    decreases s.len(),
{
    if k == s.len() - 1 {
        assert(s.remove(k) =~= s.drop_last());
    } else {
        lemma_rank_count_remove(s.drop_last(), k, v);
        assert(s.remove(k).drop_last() =~= s.drop_last().remove(k));
        assert(s.remove(k).last() == s.last());
    }
}

pub(crate) proof fn lemma_same_cards_same_counts(a: Seq<Card>, b: Seq<Card>, v: int)
    requires
        a.to_multiset() == b.to_multiset(),
    ensures
        rank_count(a, v) == rank_count(b, v),
    decreases a.len(),
{
    broadcast use vstd::seq_lib::group_to_multiset_ensures;
    broadcast use vstd::multiset::group_multiset_axioms;

    if a.len() == 0 {
        assert(b.to_multiset().len() == 0);
        assert(b.len() == 0);
    } else {
        let x = a.last();
        let a1 = a.drop_last();
        assert(a == a1.push(x));
        assert(a.to_multiset().count(x) > 0);
        assert(b.to_multiset().count(x) > 0);
        assert(b.contains(x));
        let k = choose|k: int| 0 <= k < b.len() && b[k] == x;
        let b1 = b.remove(k);
        assert(b1.to_multiset() == b.to_multiset().remove(x));
        assert(a1.to_multiset() =~= a.to_multiset().remove(x));
        lemma_same_cards_same_counts(a1, b1, v);
        lemma_rank_count_remove(b, k, v);
    }
}

proof fn lemma_values_with_count_same(a: Seq<Card>, b: Seq<Card>, c: int, lo: int)
    requires
        forall|v: int| rank_count(a, v) == #[trigger] rank_count(b, v),
    ensures
        values_with_count(a, c, lo) == values_with_count(b, c, lo),
    decreases 15 - lo,
{
    if lo <= 14 {
        lemma_values_with_count_same(a, b, c, lo + 1);
        assert(rank_count(a, lo) == rank_count(b, lo));
    }
}

proof fn lemma_ranks_desc_same(a: Seq<Card>, b: Seq<Card>, lo: int)
    requires
        forall|v: int| rank_count(a, v) == #[trigger] rank_count(b, v),
    ensures
        ranks_desc(a, lo) == ranks_desc(b, lo),
    decreases 15 - lo,
{
    if lo <= 14 {
        lemma_ranks_desc_same(a, b, lo + 1);
        assert(rank_count(a, lo) == rank_count(b, lo));
        assert(Seq::new(rank_count(a, lo) as nat, |i: int| lo) =~= Seq::new(rank_count(b, lo) as nat, |i: int| lo));
    }
}

proof fn lemma_low_values_same(a: Seq<Card>, b: Seq<Card>, hi: int)
    requires
        forall|x: Card| a.contains(x) <==> #[trigger] b.contains(x),
    ensures
        low_values_upto(a, hi) == low_values_upto(b, hi),
    decreases hi,
{
    if hi >= 1 {
        lemma_low_values_same(a, b, hi - 1);
        if has_low_value(a, hi) {
            let i = choose|i: int| 0 <= i < a.len() && low_value(#[trigger] a[i].rank) == hi;
            assert(a.contains(a[i]));
            assert(b.contains(a[i]));
            let j = choose|j: int| 0 <= j < b.len() && b[j] == a[i];
            assert(low_value(b[j].rank) == hi);
        }
        if has_low_value(b, hi) {
            let i = choose|i: int| 0 <= i < b.len() && low_value(#[trigger] b[i].rank) == hi;
            assert(b.contains(b[i]));
            assert(a.contains(b[i]));
            let j = choose|j: int| 0 <= j < a.len() && a[j] == b[i];
            assert(low_value(a[j].rank) == hi);
        }
    }
}

proof fn lemma_flush_same(a: Seq<Card>, b: Seq<Card>)
    requires
        forall|x: Card| a.contains(x) <==> #[trigger] b.contains(x),
        is_flush(a),
        b.len() > 0,
    ensures
        is_flush(b),
{
    assert(b.contains(b[0]));
    assert(a.contains(b[0]));
    assert forall|i: int| 0 <= i < b.len() implies #[trigger] b[i].suit == b[0].suit by {
        assert(b.contains(b[i]));
        assert(a.contains(b[i]));
        let p = choose|p: int| 0 <= p < a.len() && a[p] == b[i];
        let q = choose|q: int| 0 <= q < a.len() && a[q] == b[0];
        assert(a[p].suit == a[0].suit && a[q].suit == a[0].suit);
    }
}

/// Five cards rank the same, high and low, whatever order they are given
/// in: the ranking depends only on which cards there are.
pub proof fn law_evaluation_order_independent(a: Seq<Card>, b: Seq<Card>)
    requires
        a.to_multiset() == b.to_multiset(),
    ensures
        hand_rank_of(a) == hand_rank_of(b),
        low_hand_of(a) == low_hand_of(b),
{
    broadcast use vstd::seq_lib::group_to_multiset_ensures;

    assert forall|v: int| rank_count(a, v) == #[trigger] rank_count(b, v) by {
        lemma_same_cards_same_counts(a, b, v);
    }
    assert forall|x: Card| a.contains(x) <==> #[trigger] b.contains(x) by {
        vstd::seq_lib::to_multiset_contains(a, x);
        vstd::seq_lib::to_multiset_contains(b, x);
    }
    assert(a.len() == b.len()) by {
        vstd::seq_lib::to_multiset_len(a);
        vstd::seq_lib::to_multiset_len(b);
    }
    lemma_ranks_desc_same(a, b, 2);
    lemma_values_with_count_same(a, b, 1, 2);
    lemma_values_with_count_same(a, b, 2, 2);
    lemma_values_with_count_same(a, b, 3, 2);
    lemma_values_with_count_same(a, b, 4, 2);
    if a.len() > 0 {
        if is_flush(a) {
            lemma_flush_same(a, b);
        }
        if is_flush(b) {
            lemma_flush_same(b, a);
        }
    }
    assert(is_flush(a) == is_flush(b));
    lemma_low_values_same(a, b, 8);
}


proof fn lemma_low_values_held(cards: Seq<Card>, hi: int)
    ensures
        forall|i: int|
            0 <= i < low_values_upto(cards, hi).len() ==> has_low_value(cards, #[trigger] low_values_upto(cards, hi)[i]),
    decreases hi,
{
    if hi >= 1 {
        lemma_low_values_held(cards, hi - 1);
        let lo = low_values_upto(cards, hi - 1);
        let l = low_values_upto(cards, hi);
        assert forall|i: int| 0 <= i < l.len() implies has_low_value(cards, #[trigger] l[i]) by {
            if i < lo.len() {
                assert(l[i] == lo[i]);
            }
        }
    }
}

/// A low is five cards of the hand with different low values, all eight or
/// under (Ace playing one), listed from the highest value down.
pub proof fn law_low_hand_shape(cards: Seq<Card>)
    ensures
        low_hand_of(cards) matches Some(l) ==> {
            &&& l.len() == 5
            &&& forall|i: int|
                0 <= i < 5 ==> 1 <= #[trigger] low_value(l[i]) <= 8 && has_low_value(cards, low_value(l[i]))
            &&& forall|i: int, j: int| 0 <= i < j < 5 ==> low_value(#[trigger] l[i]) > low_value(#[trigger] l[j])
        },
{
    let v = low_values_upto(cards, 8);
    if v.len() >= 5 {
        lemma_low_values_in_range(cards, 8);
        lemma_low_values_held(cards, 8);
        let l = low_hand_of(cards)->0;
        assert forall|i: int| 0 <= i < 5 implies low_value(#[trigger] l[i]) == v[4 - i] by {
            let x = v[4 - i];
            assert(1 <= x <= 8);
            if x >= 2 {
                lemma_rank_of_value(x);
            }
        }
        assert forall|i: int, j: int| 0 <= i < j < 5 implies low_value(#[trigger] l[i]) > low_value(#[trigger] l[j]) by {
            assert(low_value(l[i]) == v[4 - i]);
            assert(low_value(l[j]) == v[4 - j]);
            assert(v[4 - j] < v[4 - i]);
        }
        assert forall|i: int| 0 <= i < 5 implies 1 <= #[trigger] low_value(l[i]) <= 8 && has_low_value(cards, low_value(l[i])) by {
            assert(low_value(l[i]) == v[4 - i]);
        }
    }
}


/// `cards` with every suit renamed by `sigma`.
pub open spec fn relabel_suits(cards: Seq<Card>, sigma: spec_fn(Suit) -> Suit) -> Seq<Card> {
    cards.map_values(|c: Card| Card { rank: c.rank, suit: sigma(c.suit) })
}

proof fn lemma_relabel_counts(cards: Seq<Card>, sigma: spec_fn(Suit) -> Suit, v: int)
    ensures
        rank_count(relabel_suits(cards, sigma), v) == rank_count(cards, v),
    decreases cards.len(),
{
    if cards.len() > 0 {
        assert(relabel_suits(cards, sigma).drop_last() =~= relabel_suits(cards.drop_last(), sigma));
        lemma_relabel_counts(cards.drop_last(), sigma, v);
    }
}

proof fn lemma_relabel_low_values(cards: Seq<Card>, sigma: spec_fn(Suit) -> Suit, hi: int)
    ensures
        low_values_upto(relabel_suits(cards, sigma), hi) == low_values_upto(cards, hi),
    decreases hi,
{
    if hi >= 1 {
        lemma_relabel_low_values(cards, sigma, hi - 1);
        let r = relabel_suits(cards, sigma);
        if has_low_value(cards, hi) {
            let i = choose|i: int| 0 <= i < cards.len() && low_value(#[trigger] cards[i].rank) == hi;
            assert(low_value(r[i].rank) == hi);
        }
        if has_low_value(r, hi) {
            let i = choose|i: int| 0 <= i < r.len() && low_value(#[trigger] r[i].rank) == hi;
            assert(low_value(cards[i].rank) == hi);
        }
    }
}

/// Renaming the suits one for one changes neither the high rank nor the low
/// of five cards: only which cards share a suit matters, not which suit.
pub proof fn law_evaluation_suit_independent(cards: Seq<Card>, sigma: spec_fn(Suit) -> Suit)
    requires
        forall|a: Suit, b: Suit| #[trigger] sigma(a) == #[trigger] sigma(b) ==> a == b,
    ensures
        hand_rank_of(relabel_suits(cards, sigma)) == hand_rank_of(cards),
        low_hand_of(relabel_suits(cards, sigma)) == low_hand_of(cards),
{
    let r = relabel_suits(cards, sigma);
    assert forall|v: int| rank_count(r, v) == #[trigger] rank_count(cards, v) by {
        lemma_relabel_counts(cards, sigma, v);
    }
    lemma_ranks_desc_same(r, cards, 2);
    lemma_values_with_count_same(r, cards, 1, 2);
    lemma_values_with_count_same(r, cards, 2, 2);
    lemma_values_with_count_same(r, cards, 3, 2);
    lemma_values_with_count_same(r, cards, 4, 2);
    if cards.len() > 0 {
        assert(is_flush(r) == is_flush(cards)) by {
            if is_flush(cards) {
                assert forall|i: int| 0 <= i < r.len() implies #[trigger] r[i].suit == r[0].suit by {
                    assert(cards[i].suit == cards[0].suit);
                }
            }
            if is_flush(r) {
                assert forall|i: int| 0 <= i < cards.len() implies #[trigger] cards[i].suit == cards[0].suit by {
                    assert(r[i].suit == r[0].suit);
                    assert(sigma(cards[i].suit) == sigma(cards[0].suit));
                }
            }
        }
    } else {
        assert(is_flush(r) && is_flush(cards));
    }
    lemma_relabel_low_values(cards, sigma, 8);
}


// ---------------------------------------------------------------------------
// The order of hand ranks
// ---------------------------------------------------------------------------

/// The tie-break ranks of a hand rank as values, in the order of its fields,
/// padded with zeros to five.
pub open spec fn tiebreak_values(h: HandRank) -> (int, int, int, int, int) {
    match h {
        HandRank::StraightFlush(a) => (rank_value(a), 0, 0, 0, 0),
        HandRank::FourOfAKind(a, b) => (rank_value(a), rank_value(b), 0, 0, 0),
        HandRank::FullHouse(a, b) => (rank_value(a), rank_value(b), 0, 0, 0),
        HandRank::Flush(a, b, c, d, e) => (rank_value(a), rank_value(b), rank_value(c), rank_value(d), rank_value(e)),
        HandRank::Straight(a) => (rank_value(a), 0, 0, 0, 0),
        HandRank::ThreeOfAKind(a, b, c) => (rank_value(a), rank_value(b), rank_value(c), 0, 0),
        HandRank::TwoPair(a, b, c) => (rank_value(a), rank_value(b), rank_value(c), 0, 0),
        HandRank::OnePair(a, b, c, d) => (rank_value(a), rank_value(b), rank_value(c), rank_value(d), 0),
        HandRank::HighCard(a, b, c, d, e) => (rank_value(a), rank_value(b), rank_value(c), rank_value(d), rank_value(e)),
    }
}

/// `a` comes after `b` in lexicographic order.
pub open spec fn lex_gt5(a: (int, int, int, int, int), b: (int, int, int, int, int)) -> bool {
    a.0 > b.0 || (a.0 == b.0 && (a.1 > b.1 || (a.1 == b.1 && (a.2 > b.2 || (a.2 == b.2 && (a.3 > b.3 || (a.3
        == b.3 && a.4 > b.4)))))))
}

/// `x` is the stronger poker hand: a higher category, or the same category
/// and higher tie-break ranks compared field by field, first field first.
pub open spec fn outranks(x: HandRank, y: HandRank) -> bool {
    hand_category(x) > hand_category(y) || (hand_category(x) == hand_category(y) && lex_gt5(
        tiebreak_values(x),
        tiebreak_values(y),
    ))
}

proof fn lemma_base15(a1: int, a2: int, a3: int, a4: int, a5: int, b1: int, b2: int, b3: int, b4: int, b5: int)
    requires
        0 <= a1 <= 14, 0 <= a2 <= 14, 0 <= a3 <= 14, 0 <= a4 <= 14, 0 <= a5 <= 14,
        0 <= b1 <= 14, 0 <= b2 <= 14, 0 <= b3 <= 14, 0 <= b4 <= 14, 0 <= b5 <= 14,
    ensures
        (a1 * 50625 + a2 * 3375 + a3 * 225 + a4 * 15 + a5 > b1 * 50625 + b2 * 3375 + b3 * 225 + b4 * 15 + b5)
            == lex_gt5((a1, a2, a3, a4, a5), (b1, b2, b3, b4, b5)),
{
    if a1 != b1 {
    } else if a2 != b2 {
    } else if a3 != b3 {
    } else if a4 != b4 {
    }
}

proof fn lemma_order_straightflush(x: HandRank, y: HandRank)
    requires
        x is StraightFlush,
        y is StraightFlush,
    ensures
        beats(x, y) == lex_gt5(tiebreak_values(x), tiebreak_values(y)),
{
    lemma_rv(x->StraightFlush_0);
    lemma_rv(y->StraightFlush_0);
    lemma_base15(0, 0, 0, 0, rank_value(x->StraightFlush_0), 0, 0, 0, 0, rank_value(y->StraightFlush_0));
}

proof fn lemma_order_fourofakind(x: HandRank, y: HandRank)
    requires
        x is FourOfAKind,
        y is FourOfAKind,
    ensures
        beats(x, y) == lex_gt5(tiebreak_values(x), tiebreak_values(y)),
{
    lemma_rv(x->FourOfAKind_0);
    lemma_rv(y->FourOfAKind_0);
    lemma_rv(x->FourOfAKind_1);
    lemma_rv(y->FourOfAKind_1);
    lemma_base15(0, 0, 0, rank_value(x->FourOfAKind_0), rank_value(x->FourOfAKind_1), 0, 0, 0, rank_value(y->FourOfAKind_0), rank_value(y->FourOfAKind_1));
}

proof fn lemma_order_fullhouse(x: HandRank, y: HandRank)
    requires
        x is FullHouse,
        y is FullHouse,
    ensures
        beats(x, y) == lex_gt5(tiebreak_values(x), tiebreak_values(y)),
{
    lemma_rv(x->FullHouse_0);
    lemma_rv(y->FullHouse_0);
    lemma_rv(x->FullHouse_1);
    lemma_rv(y->FullHouse_1);
    lemma_base15(0, 0, 0, rank_value(x->FullHouse_0), rank_value(x->FullHouse_1), 0, 0, 0, rank_value(y->FullHouse_0), rank_value(y->FullHouse_1));
}

#[verifier::spinoff_prover]
#[verifier::rlimit(60)]
proof fn lemma_order_flush(x: HandRank, y: HandRank)
    requires
        x is Flush,
        y is Flush,
    ensures
        beats(x, y) == lex_gt5(tiebreak_values(x), tiebreak_values(y)),
{
    let a1 = rank_value(x->Flush_0);
    let a2 = rank_value(x->Flush_1);
    let a3 = rank_value(x->Flush_2);
    let a4 = rank_value(x->Flush_3);
    let a5 = rank_value(x->Flush_4);
    let b1 = rank_value(y->Flush_0);
    let b2 = rank_value(y->Flush_1);
    let b3 = rank_value(y->Flush_2);
    let b4 = rank_value(y->Flush_3);
    let b5 = rank_value(y->Flush_4);
    lemma_rv(x->Flush_0); lemma_rv(x->Flush_1); lemma_rv(x->Flush_2); lemma_rv(x->Flush_3); lemma_rv(x->Flush_4);
    lemma_rv(y->Flush_0); lemma_rv(y->Flush_1); lemma_rv(y->Flush_2); lemma_rv(y->Flush_3); lemma_rv(y->Flush_4);
    let sx = a1 * 50625 + a2 * 3375 + a3 * 225 + a4 * 15 + a5;
    let sy = b1 * 50625 + b2 * 3375 + b3 * 225 + b4 * 15 + b5;
    assert(hand_rank_score(x) == 5000000 + sx);
    assert(hand_rank_score(y) == 5000000 + sy);
    assert(tiebreak_values(x) == (a1, a2, a3, a4, a5));
    assert(tiebreak_values(y) == (b1, b2, b3, b4, b5));
    lemma_base15(a1, a2, a3, a4, a5, b1, b2, b3, b4, b5);
    assert((sx > sy) == lex_gt5((a1, a2, a3, a4, a5), (b1, b2, b3, b4, b5)));
    assert(beats(x, y) == (sx > sy));
}

proof fn lemma_order_straight(x: HandRank, y: HandRank)
    requires
        x is Straight,
        y is Straight,
    ensures
        beats(x, y) == lex_gt5(tiebreak_values(x), tiebreak_values(y)),
{
    lemma_rv(x->Straight_0);
    lemma_rv(y->Straight_0);
    lemma_base15(0, 0, 0, 0, rank_value(x->Straight_0), 0, 0, 0, 0, rank_value(y->Straight_0));
}

proof fn lemma_order_threeofakind(x: HandRank, y: HandRank)
    requires
        x is ThreeOfAKind,
        y is ThreeOfAKind,
    ensures
        beats(x, y) == lex_gt5(tiebreak_values(x), tiebreak_values(y)),
{
    lemma_rv(x->ThreeOfAKind_0);
    lemma_rv(y->ThreeOfAKind_0);
    lemma_rv(x->ThreeOfAKind_1);
    lemma_rv(y->ThreeOfAKind_1);
    lemma_rv(x->ThreeOfAKind_2);
    lemma_rv(y->ThreeOfAKind_2);
    lemma_base15(0, 0, rank_value(x->ThreeOfAKind_0), rank_value(x->ThreeOfAKind_1), rank_value(x->ThreeOfAKind_2), 0, 0, rank_value(y->ThreeOfAKind_0), rank_value(y->ThreeOfAKind_1), rank_value(y->ThreeOfAKind_2));
}

proof fn lemma_order_twopair(x: HandRank, y: HandRank)
    requires
        x is TwoPair,
        y is TwoPair,
    ensures
        beats(x, y) == lex_gt5(tiebreak_values(x), tiebreak_values(y)),
{
    lemma_rv(x->TwoPair_0);
    lemma_rv(y->TwoPair_0);
    lemma_rv(x->TwoPair_1);
    lemma_rv(y->TwoPair_1);
    lemma_rv(x->TwoPair_2);
    lemma_rv(y->TwoPair_2);
    lemma_base15(0, 0, rank_value(x->TwoPair_0), rank_value(x->TwoPair_1), rank_value(x->TwoPair_2), 0, 0, rank_value(y->TwoPair_0), rank_value(y->TwoPair_1), rank_value(y->TwoPair_2));
}

proof fn lemma_order_onepair(x: HandRank, y: HandRank)
    requires
        x is OnePair,
        y is OnePair,
    ensures
        beats(x, y) == lex_gt5(tiebreak_values(x), tiebreak_values(y)),
{
    lemma_rv(x->OnePair_0);
    lemma_rv(y->OnePair_0);
    lemma_rv(x->OnePair_1);
    lemma_rv(y->OnePair_1);
    lemma_rv(x->OnePair_2);
    lemma_rv(y->OnePair_2);
    lemma_rv(x->OnePair_3);
    lemma_rv(y->OnePair_3);
    lemma_base15(0, rank_value(x->OnePair_0), rank_value(x->OnePair_1), rank_value(x->OnePair_2), rank_value(x->OnePair_3), 0, rank_value(y->OnePair_0), rank_value(y->OnePair_1), rank_value(y->OnePair_2), rank_value(y->OnePair_3));
}

#[verifier::spinoff_prover]
#[verifier::rlimit(60)]
proof fn lemma_order_highcard(x: HandRank, y: HandRank)
    requires
        x is HighCard,
        y is HighCard,
    ensures
        beats(x, y) == lex_gt5(tiebreak_values(x), tiebreak_values(y)),
{
    let a1 = rank_value(x->HighCard_0);
    let a2 = rank_value(x->HighCard_1);
    let a3 = rank_value(x->HighCard_2);
    let a4 = rank_value(x->HighCard_3);
    let a5 = rank_value(x->HighCard_4);
    let b1 = rank_value(y->HighCard_0);
    let b2 = rank_value(y->HighCard_1);
    let b3 = rank_value(y->HighCard_2);
    let b4 = rank_value(y->HighCard_3);
    let b5 = rank_value(y->HighCard_4);
    lemma_rv(x->HighCard_0); lemma_rv(x->HighCard_1); lemma_rv(x->HighCard_2); lemma_rv(x->HighCard_3); lemma_rv(x->HighCard_4);
    lemma_rv(y->HighCard_0); lemma_rv(y->HighCard_1); lemma_rv(y->HighCard_2); lemma_rv(y->HighCard_3); lemma_rv(y->HighCard_4);
    let sx = a1 * 50625 + a2 * 3375 + a3 * 225 + a4 * 15 + a5;
    let sy = b1 * 50625 + b2 * 3375 + b3 * 225 + b4 * 15 + b5;
    assert(hand_rank_score(x) == 0 + sx);
    assert(hand_rank_score(y) == 0 + sy);
    assert(tiebreak_values(x) == (a1, a2, a3, a4, a5));
    assert(tiebreak_values(y) == (b1, b2, b3, b4, b5));
    lemma_base15(a1, a2, a3, a4, a5, b1, b2, b3, b4, b5);
    assert((sx > sy) == lex_gt5((a1, a2, a3, a4, a5), (b1, b2, b3, b4, b5)));
    assert(beats(x, y) == (sx > sy));
}

proof fn lemma_order_within(x: HandRank, y: HandRank)
    requires
        hand_category(x) == hand_category(y),
    ensures
        beats(x, y) == lex_gt5(tiebreak_values(x), tiebreak_values(y)),
{
    match x {
        HandRank::StraightFlush(..) => lemma_order_straightflush(x, y),
        HandRank::FourOfAKind(..) => lemma_order_fourofakind(x, y),
        HandRank::FullHouse(..) => lemma_order_fullhouse(x, y),
        HandRank::Flush(..) => lemma_order_flush(x, y),
        HandRank::Straight(..) => lemma_order_straight(x, y),
        HandRank::ThreeOfAKind(..) => lemma_order_threeofakind(x, y),
        HandRank::TwoPair(..) => lemma_order_twopair(x, y),
        HandRank::OnePair(..) => lemma_order_onepair(x, y),
        HandRank::HighCard(..) => lemma_order_highcard(x, y),
    }
}

/// Comparing scores orders hand ranks as poker does: by category, then by
/// the tie-break ranks field by field (a two pair with the higher second
/// pair wins whatever the kickers). This is the order `HandRank` derives.
pub proof fn law_beats_is_poker_order(x: HandRank, y: HandRank)
    ensures
        beats(x, y) == outranks(x, y),
{
    lemma_score_split(x);
    lemma_score_split(y);
    if hand_category(x) == hand_category(y) {
        lemma_order_within(x, y);
    }
}


// ---------------------------------------------------------------------------
// Straights
// ---------------------------------------------------------------------------

/// Rank value `v` belongs to the run of five ending at `top`; the Ace also
/// plays below the Two, in the run ending at Five.
pub open spec fn in_run(v: int, top: int) -> bool {
    (top - 4 <= v <= top) || (top == 5 && v == 14)
}

proof fn lemma_count_absent(cards: Seq<Card>, v: int)
    requires
        forall|i: int| 0 <= i < cards.len() ==> rank_value(#[trigger] cards[i].rank) != v,
    ensures
        rank_count(cards, v) == 0,
    decreases cards.len(),
{
    if cards.len() > 0 {
        lemma_count_absent(cards.drop_last(), v);
    }
}

proof fn lemma_count_distinct(cards: Seq<Card>, v: int)
    requires
        forall|i: int, j: int|
            0 <= i < j < cards.len() ==> rank_value(#[trigger] cards[i].rank) != rank_value(#[trigger] cards[j].rank),
    ensures
        rank_count(cards, v) <= 1,
    decreases cards.len(),
{
    if cards.len() > 0 {
        let rest = cards.drop_last();
        lemma_count_distinct(rest, v);
        if rank_value(cards.last().rank) == v {
            assert forall|i: int| 0 <= i < rest.len() implies rank_value(#[trigger] rest[i].rank) != v by {
                assert(rest[i] == cards[i]);
            }
            lemma_count_absent(rest, v);
        }
    }
}

proof fn lemma_straight_counts(cards: Seq<Card>, top: int)
    requires
        5 <= top <= 14,
        forall|v: int| 2 <= v <= 14 ==> #[trigger] rank_count(cards, v) == if in_run(v, top) { 1int } else { 0int },
    ensures
        !is_flush(cards) ==> hand_rank_of(cards) == HandRank::Straight(rank_of_value(top)),
        is_flush(cards) ==> hand_rank_of(cards) == HandRank::StraightFlush(rank_of_value(top)),
{
    reveal_with_fuel(ranks_desc, 14);
    reveal_with_fuel(values_with_count, 14);
    assert(rank_count(cards, 2) == if in_run(2, top) { 1int } else { 0int });
    assert(rank_count(cards, 3) == if in_run(3, top) { 1int } else { 0int });
    assert(rank_count(cards, 4) == if in_run(4, top) { 1int } else { 0int });
    assert(rank_count(cards, 5) == if in_run(5, top) { 1int } else { 0int });
    assert(rank_count(cards, 6) == if in_run(6, top) { 1int } else { 0int });
    assert(rank_count(cards, 7) == if in_run(7, top) { 1int } else { 0int });
    assert(rank_count(cards, 8) == if in_run(8, top) { 1int } else { 0int });
    assert(rank_count(cards, 9) == if in_run(9, top) { 1int } else { 0int });
    assert(rank_count(cards, 10) == if in_run(10, top) { 1int } else { 0int });
    assert(rank_count(cards, 11) == if in_run(11, top) { 1int } else { 0int });
    assert(rank_count(cards, 12) == if in_run(12, top) { 1int } else { 0int });
    assert(rank_count(cards, 13) == if in_run(13, top) { 1int } else { 0int });
    assert(rank_count(cards, 14) == if in_run(14, top) { 1int } else { 0int });
    let d = ranks_desc(cards, 2);
    assert(values_with_count(cards, 4, 2).len() == 0);
    assert(values_with_count(cards, 3, 2).len() == 0);
    assert(values_with_count(cards, 2, 2).len() == 0);
    if top == 5 {
        assert(d =~= seq![14int, 5, 4, 3, 2]);
    } else if top == 6 {
        assert(d =~= seq![6int, 5, 4, 3, 2]);
    } else if top == 7 {
        assert(d =~= seq![7int, 6, 5, 4, 3]);
    } else if top == 8 {
        assert(d =~= seq![8int, 7, 6, 5, 4]);
    } else if top == 9 {
        assert(d =~= seq![9int, 8, 7, 6, 5]);
    } else if top == 10 {
        assert(d =~= seq![10int, 9, 8, 7, 6]);
    } else if top == 11 {
        assert(d =~= seq![11int, 10, 9, 8, 7]);
    } else if top == 12 {
        assert(d =~= seq![12int, 11, 10, 9, 8]);
    } else if top == 13 {
        assert(d =~= seq![13int, 12, 11, 10, 9]);
    } else {
        assert(d =~= seq![14int, 13, 12, 11, 10]);
    }
    assert(straight_high(d) == Some(top));
}

proof fn lemma_run_counts(cards: Seq<Card>, top: int)
    requires
        cards.len() == 5,
        5 <= top <= 14,
        forall|i: int, j: int|
            0 <= i < j < 5 ==> rank_value(#[trigger] cards[i].rank) != rank_value(#[trigger] cards[j].rank),
        forall|i: int| 0 <= i < 5 ==> in_run(rank_value(#[trigger] cards[i].rank), top),
    ensures
        forall|v: int| 2 <= v <= 14 ==> #[trigger] rank_count(cards, v) == if in_run(v, top) { 1int } else { 0int },
{
    lemma_count_at_least_ends(cards);
    assert forall|w: int| 2 <= w <= 14 implies 0 <= #[trigger] rank_count(cards, w) <= 1 by {
        lemma_rank_count_bounds(cards, w);
        lemma_count_distinct(cards, w);
    }
    assert forall|w: int| 2 <= w <= 14 && !in_run(w, top) implies #[trigger] rank_count(cards, w) == 0 by {
        lemma_count_absent(cards, w);
    }
    lemma_count_at_least_split(cards, 2);
    lemma_count_at_least_split(cards, 3);
    lemma_count_at_least_split(cards, 4);
    lemma_count_at_least_split(cards, 5);
    lemma_count_at_least_split(cards, 6);
    lemma_count_at_least_split(cards, 7);
    lemma_count_at_least_split(cards, 8);
    lemma_count_at_least_split(cards, 9);
    lemma_count_at_least_split(cards, 10);
    lemma_count_at_least_split(cards, 11);
    lemma_count_at_least_split(cards, 12);
    lemma_count_at_least_split(cards, 13);
    lemma_count_at_least_split(cards, 14);
    assert forall|v: int| 2 <= v <= 14 implies #[trigger] rank_count(cards, v) == if in_run(v, top) { 1int } else { 0int } by {
        assert(0 <= rank_count(cards, 2) <= 1);
        assert(0 <= rank_count(cards, 14) <= 1);
        assert(in_run(2, top) || rank_count(cards, 2) == 0);
        assert(in_run(3, top) || rank_count(cards, 3) == 0);
        assert(in_run(4, top) || rank_count(cards, 4) == 0);
        assert(in_run(5, top) || rank_count(cards, 5) == 0);
        assert(in_run(6, top) || rank_count(cards, 6) == 0);
        assert(in_run(7, top) || rank_count(cards, 7) == 0);
        assert(in_run(8, top) || rank_count(cards, 8) == 0);
        assert(in_run(9, top) || rank_count(cards, 9) == 0);
        assert(in_run(10, top) || rank_count(cards, 10) == 0);
        assert(in_run(11, top) || rank_count(cards, 11) == 0);
        assert(in_run(12, top) || rank_count(cards, 12) == 0);
        assert(in_run(13, top) || rank_count(cards, 13) == 0);
        assert(in_run(14, top) || rank_count(cards, 14) == 0);
        assert(rank_count(cards, 3) <= 1 && rank_count(cards, 4) <= 1 && rank_count(cards, 5) <= 1);
        assert(rank_count(cards, 6) <= 1 && rank_count(cards, 7) <= 1 && rank_count(cards, 8) <= 1);
        assert(rank_count(cards, 9) <= 1 && rank_count(cards, 10) <= 1 && rank_count(cards, 11) <= 1);
        assert(rank_count(cards, 12) <= 1 && rank_count(cards, 13) <= 1);
    }
}

/// Five cards holding five different rank values in a run (Ace above King,
/// or below Two in the run to Five), not all of one suit, rank as a
/// straight to the top of the run: A-K-Q-J-T is a straight to the Ace,
/// A-2-3-4-5 one to the Five.
pub proof fn law_straight(cards: Seq<Card>, top: int)
    requires
        cards.len() == 5,
        5 <= top <= 14,
        forall|i: int, j: int|
            0 <= i < j < 5 ==> rank_value(#[trigger] cards[i].rank) != rank_value(#[trigger] cards[j].rank),
        forall|i: int| 0 <= i < 5 ==> in_run(rank_value(#[trigger] cards[i].rank), top),
        exists|i: int| 0 <= i < 5 && #[trigger] cards[i].suit != cards[0].suit,
    ensures
        hand_rank_of(cards) == HandRank::Straight(rank_of_value(top)),
{
    lemma_run_counts(cards, top);
    lemma_straight_counts(cards, top);
}

/// Five cards of one suit with five different rank values in a run rank as
/// a straight flush to the top of the run (the wheel A-2-3-4-5 to the Five).
pub proof fn law_straight_flush(cards: Seq<Card>, top: int)
    requires
        cards.len() == 5,
        5 <= top <= 14,
        forall|i: int, j: int|
            0 <= i < j < 5 ==> rank_value(#[trigger] cards[i].rank) != rank_value(#[trigger] cards[j].rank),
        forall|i: int| 0 <= i < 5 ==> in_run(rank_value(#[trigger] cards[i].rank), top),
        forall|i: int| 0 <= i < 5 ==> #[trigger] cards[i].suit == cards[0].suit,
    ensures
        hand_rank_of(cards) == HandRank::StraightFlush(rank_of_value(top)),
{
    lemma_run_counts(cards, top);
    lemma_straight_counts(cards, top);
}

// ---------------------------------------------------------------------------
// Hand categories from the cards
// ---------------------------------------------------------------------------

/// The values `ws` run strictly downwards.
pub open spec fn strictly_down(ws: Seq<int>) -> bool {
    forall|i: int, j: int| 0 <= i < j < ws.len() ==> #[trigger] ws[i] > #[trigger] ws[j]
}

proof fn lemma_values_with_count_is(cards: Seq<Card>, c: int, lo: int, ws: Seq<int>)
    requires
        2 <= lo <= 15,
        strictly_down(ws),
        forall|i: int| 0 <= i < ws.len() ==> lo <= #[trigger] ws[i] <= 14,
        forall|w: int| lo <= w <= 14 ==> (#[trigger] rank_count(cards, w) == c <==> ws.contains(w)),
    ensures
        values_with_count(cards, c, lo) == ws,
    decreases 15 - lo,
{
    if lo > 14 {
        if ws.len() > 0 {
            assert(lo <= ws[0] <= 14);
        }
        assert(ws =~= Seq::<int>::empty());
    } else if rank_count(cards, lo) == c {
        assert(ws.contains(lo));
        let x = choose|x: int| 0 <= x < ws.len() && ws[x] == lo;
        if x < ws.len() - 1 {
            assert(ws[x] > ws[ws.len() - 1]);
            assert(lo <= ws[ws.len() - 1]);
        }
        let rest = ws.drop_last();
        assert forall|i: int| 0 <= i < rest.len() implies lo + 1 <= #[trigger] rest[i] <= 14 by {
            assert(rest[i] == ws[i]);
            assert(ws[i] > ws[ws.len() - 1]);
        }
        assert forall|w: int| lo + 1 <= w <= 14 implies (#[trigger] rank_count(cards, w) == c <==> rest.contains(w)) by {
            if ws.contains(w) {
                let y = choose|y: int| 0 <= y < ws.len() && ws[y] == w;
                assert(y != ws.len() - 1);
                assert(rest[y] == w);
            }
            if rest.contains(w) {
                let y = choose|y: int| 0 <= y < rest.len() && rest[y] == w;
                assert(ws[y] == w);
            }
        }
        lemma_values_with_count_is(cards, c, lo + 1, rest);
        assert(ws =~= rest.push(lo));
    } else {
        assert forall|i: int| 0 <= i < ws.len() implies lo + 1 <= #[trigger] ws[i] <= 14 by {
            if ws[i] == lo {
                assert(ws.contains(lo));
            }
        }
        lemma_values_with_count_is(cards, c, lo + 1, ws);
    }
}

proof fn lemma_ranks_desc_single(cards: Seq<Card>, lo: int)
    requires
        2 <= lo <= 15,
        forall|w: int| lo <= w <= 14 ==> #[trigger] rank_count(cards, w) <= 1,
    ensures
        ranks_desc(cards, lo) == values_with_count(cards, 1, lo),
    decreases 15 - lo,
{
    if lo <= 14 {
        lemma_ranks_desc_single(cards, lo + 1);
        lemma_rank_count_bounds(cards, lo);
        if rank_count(cards, lo) == 1 {
            assert(Seq::new(rank_count(cards, lo) as nat, |i: int| lo) =~= seq![lo]);
            assert(ranks_desc(cards, lo) =~= values_with_count(cards, 1, lo + 1).push(lo));
        } else {
            assert(Seq::new(rank_count(cards, lo) as nat, |i: int| lo) =~= Seq::<int>::empty());
            assert(ranks_desc(cards, lo) =~= values_with_count(cards, 1, lo + 1));
        }
    }
}

proof fn lemma_strict_counts(cards: Seq<Card>, lo: int)
    requires
        2 <= lo <= 15,
        forall|i: int| 0 <= i < ranks_desc(cards, lo).len() - 1 ==> #[trigger] ranks_desc(cards, lo)[i] > ranks_desc(cards, lo)[i + 1],
    ensures
        forall|w: int| lo <= w <= 14 ==> #[trigger] rank_count(cards, w) <= 1,
    decreases 15 - lo,
{
    if lo <= 14 {
        let d1 = ranks_desc(cards, lo + 1);
        let tail = Seq::new(rank_count(cards, lo) as nat, |i: int| lo);
        let d = ranks_desc(cards, lo);
        assert(d == d1 + tail);
        lemma_rank_count_bounds(cards, lo);
        assert forall|i: int| 0 <= i < d1.len() - 1 implies #[trigger] d1[i] > d1[i + 1] by {
            assert(d[i] == d1[i]);
            assert(d[i + 1] == d1[i + 1]);
        }
        lemma_strict_counts(cards, lo + 1);
        if rank_count(cards, lo) >= 2 {
            let k = d1.len() as int;
            assert(d[k] == lo);
            assert(d[k + 1] == lo);
        }
    }
}

/// The sum of the counts of the values `vs`.
pub open spec fn sum_counts(cards: Seq<Card>, vs: Seq<int>) -> int
    decreases vs.len(),
{
    if vs.len() == 0 {
        0
    } else {
        sum_counts(cards, vs.drop_last()) + rank_count(cards, vs.last())
    }
}

proof fn lemma_sum_counts_step(cards: Seq<Card>, vs: Seq<int>)
    requires
        cards.len() > 0,
        vs.no_duplicates(),
    ensures
        sum_counts(cards, vs) == sum_counts(cards.drop_last(), vs) + if vs.contains(
            rank_value(cards.last().rank),
        ) {
            1int
        } else {
            0int
        },
    decreases vs.len(),
{
    if vs.len() > 0 {
        let rest = vs.drop_last();
        assert(rest.no_duplicates());
        lemma_sum_counts_step(cards, rest);
        let x = rank_value(cards.last().rank);
        if vs.last() == x {
            if rest.contains(x) {
                let y = choose|y: int| 0 <= y < rest.len() && rest[y] == x;
                assert(vs[y] == vs[vs.len() - 1]);
            }
        } else {
            if vs.contains(x) {
                let y = choose|y: int| 0 <= y < vs.len() && vs[y] == x;
                assert(rest[y] == x);
            }
            if rest.contains(x) {
                let y = choose|y: int| 0 <= y < rest.len() && rest[y] == x;
                assert(vs[y] == x);
            }
        }
    } else {
        assert(!vs.contains(rank_value(cards.last().rank)));
    }
}

proof fn lemma_sum_counts_bound(cards: Seq<Card>, vs: Seq<int>)
    requires
        vs.no_duplicates(),
    ensures
        sum_counts(cards, vs) <= cards.len(),
    decreases cards.len(),
{
    if cards.len() > 0 {
        lemma_sum_counts_step(cards, vs);
        lemma_sum_counts_bound(cards.drop_last(), vs);
    } else {
        lemma_sum_counts_zero(cards, vs);
    }
}

proof fn lemma_sum_counts_zero(cards: Seq<Card>, vs: Seq<int>)
    requires
        cards.len() == 0,
    ensures
        sum_counts(cards, vs) == 0,
    decreases vs.len(),
{
    if vs.len() > 0 {
        lemma_sum_counts_zero(cards, vs.drop_last());
    }
}

/// Five cards whose named values already account for all five: no other
/// value occurs.
proof fn lemma_no_other_values(cards: Seq<Card>, named: Seq<int>)
    requires
        cards.len() == 5,
        named.no_duplicates(),
        sum_counts(cards, named) == 5,
    ensures
        forall|w: int| !named.contains(w) ==> #[trigger] rank_count(cards, w) == 0,
{
    assert forall|w: int| !named.contains(w) implies #[trigger] rank_count(cards, w) == 0 by {
        let vs = named.push(w);
        assert(vs.drop_last() =~= named);
        assert(vs.no_duplicates()) by {
            assert forall|i: int, j: int| 0 <= i < j < vs.len() implies vs[i] != vs[j] by {
                if j == vs.len() - 1 {
                    assert(named.contains(vs[i]) ==> named[i] == vs[i]);
                    assert(vs[i] == named[i]);
                }
            }
        }
        lemma_sum_counts_bound(cards, vs);
        lemma_rank_count_bounds(cards, w);
    }
}

/// A paired hand is no straight: the straight test finds no run.
proof fn lemma_paired_no_straight(cards: Seq<Card>, w: int)
    requires
        cards.len() == 5,
        2 <= w <= 14,
        rank_count(cards, w) >= 2,
    ensures
        straight_high(ranks_desc(cards, 2)) is None,
{
    let d = ranks_desc(cards, 2);
    lemma_ranks_desc_len(cards, 2);
    lemma_count_at_least_ends(cards);
    if straight_high(d) is Some {
        assert forall|i: int| 0 <= i < d.len() - 1 implies #[trigger] d[i] > d[i + 1] by {
            if i == 0 {
            } else if i == 1 {
            } else if i == 2 {
            } else {
            }
        }
        lemma_strict_counts(cards, 2);
    }
}

proof fn lemma_one_value(cards: Seq<Card>, c: int, v: int)
    requires
        2 <= v <= 14,
        forall|w: int| 2 <= w <= 14 ==> (#[trigger] rank_count(cards, w) == c <==> w == v),
    ensures
        values_with_count(cards, c, 2) == seq![v],
{
    let ws = seq![v];
    assert forall|w: int| 2 <= w <= 14 implies (#[trigger] rank_count(cards, w) == c <==> ws.contains(w)) by {
        if w == v {
            assert(ws[0] == w);
        }
    }
    lemma_values_with_count_is(cards, c, 2, ws);
}

proof fn lemma_no_value(cards: Seq<Card>, c: int)
    requires
        forall|w: int| 2 <= w <= 14 ==> #[trigger] rank_count(cards, w) != c,
    ensures
        values_with_count(cards, c, 2).len() == 0,
{
    lemma_values_with_count_is(cards, c, 2, Seq::empty());
}

proof fn lemma_two_values(cards: Seq<Card>, c: int, a: int, b: int)
    requires
        2 <= b < a <= 14,
        forall|w: int| 2 <= w <= 14 ==> (#[trigger] rank_count(cards, w) == c <==> (w == a || w == b)),
    ensures
        values_with_count(cards, c, 2) == seq![a, b],
{
    let ws = seq![a, b];
    assert forall|w: int| 2 <= w <= 14 implies (#[trigger] rank_count(cards, w) == c <==> ws.contains(w)) by {
        if w == a {
            assert(ws[0] == w);
        }
        if w == b {
            assert(ws[1] == w);
        }
    }
    lemma_values_with_count_is(cards, c, 2, ws);
}

proof fn lemma_three_values(cards: Seq<Card>, c: int, a: int, b: int, e: int)
    requires
        2 <= e < b < a <= 14,
        forall|w: int| 2 <= w <= 14 ==> (#[trigger] rank_count(cards, w) == c <==> (w == a || w == b || w == e)),
    ensures
        values_with_count(cards, c, 2) == seq![a, b, e],
{
    let ws = seq![a, b, e];
    assert forall|w: int| 2 <= w <= 14 implies (#[trigger] rank_count(cards, w) == c <==> ws.contains(w)) by {
        if w == a {
            assert(ws[0] == w);
        }
        if w == b {
            assert(ws[1] == w);
        }
        if w == e {
            assert(ws[2] == w);
        }
    }
    lemma_values_with_count_is(cards, c, 2, ws);
}

/// Four cards of one rank and a fifth of another rank are four of a kind
/// of the first, with the second as kicker.
pub proof fn law_four_of_a_kind(cards: Seq<Card>, q: Rank, k: Rank)
    requires
        cards.len() == 5,
        q != k,
        rank_count(cards, rank_value(q)) == 4,
        rank_count(cards, rank_value(k)) == 1,
    ensures
        hand_rank_of(cards) == HandRank::FourOfAKind(q, k),
{
    let vq = rank_value(q);
    let vk = rank_value(k);
    lemma_rank_value_bounds(q);
    lemma_rank_value_bounds(k);
    let named = seq![vq, vk];
    assert(named.drop_last() =~= seq![vq]);
    assert(seq![vq].drop_last() =~= Seq::<int>::empty());
    reveal_with_fuel(sum_counts, 5);
    assert(sum_counts(cards, named) == 5);
    lemma_no_other_values(cards, named);
    assert forall|w: int| 2 <= w <= 14 implies #[trigger] rank_count(cards, w) == if w == vq { 4int } else if w == vk { 1int } else { 0int } by {
        if w != vq && w != vk {
            assert(!named.contains(w));
        }
    }
    lemma_one_value(cards, 4, vq);
    lemma_one_value(cards, 1, vk);
    lemma_paired_no_straight(cards, vq);
}

/// Three cards of one rank and two of another are a full house of the
/// first over the second.
pub proof fn law_full_house(cards: Seq<Card>, t: Rank, p: Rank)
    requires
        cards.len() == 5,
        t != p,
        rank_count(cards, rank_value(t)) == 3,
        rank_count(cards, rank_value(p)) == 2,
    ensures
        hand_rank_of(cards) == HandRank::FullHouse(t, p),
{
    let vt = rank_value(t);
    let vp = rank_value(p);
    lemma_rank_value_bounds(t);
    lemma_rank_value_bounds(p);
    let named = seq![vt, vp];
    assert(named.drop_last() =~= seq![vt]);
    assert(seq![vt].drop_last() =~= Seq::<int>::empty());
    reveal_with_fuel(sum_counts, 5);
    assert(sum_counts(cards, named) == 5);
    lemma_no_other_values(cards, named);
    assert forall|w: int| 2 <= w <= 14 implies #[trigger] rank_count(cards, w) == if w == vt { 3int } else if w == vp { 2int } else { 0int } by {
        if w != vt && w != vp {
            assert(!named.contains(w));
        }
    }
    lemma_no_value(cards, 4);
    lemma_one_value(cards, 3, vt);
    lemma_one_value(cards, 2, vp);
    lemma_paired_no_straight(cards, vt);
}

/// Three cards of one rank and two single cards of other ranks, not all of
/// one suit, are three of a kind with the higher single card as first
/// kicker.
pub proof fn law_three_of_a_kind(cards: Seq<Card>, t: Rank, k1: Rank, k2: Rank)
    requires
        cards.len() == 5,
        rank_value(k1) > rank_value(k2),
        t != k1 && t != k2,
        rank_count(cards, rank_value(t)) == 3,
        rank_count(cards, rank_value(k1)) == 1,
        rank_count(cards, rank_value(k2)) == 1,
        exists|i: int| 0 <= i < 5 && #[trigger] cards[i].suit != cards[0].suit,
    ensures
        hand_rank_of(cards) == HandRank::ThreeOfAKind(t, k1, k2),
{
    let vt = rank_value(t);
    let v1 = rank_value(k1);
    let v2 = rank_value(k2);
    lemma_rank_value_bounds(t);
    lemma_rank_value_bounds(k1);
    lemma_rank_value_bounds(k2);
    let named = seq![vt, v1, v2];
    assert(named.drop_last() =~= seq![vt, v1]);
    assert(seq![vt, v1].drop_last() =~= seq![vt]);
    assert(seq![vt].drop_last() =~= Seq::<int>::empty());
    reveal_with_fuel(sum_counts, 5);
    assert(sum_counts(cards, named) == 5);
    lemma_no_other_values(cards, named);
    assert forall|w: int| 2 <= w <= 14 implies #[trigger] rank_count(cards, w) == if w == vt { 3int } else if w == v1 || w == v2 { 1int } else { 0int } by {
        if w != vt && w != v1 && w != v2 {
            assert(!named.contains(w));
        }
    }
    lemma_no_value(cards, 4);
    lemma_no_value(cards, 2);
    lemma_one_value(cards, 3, vt);
    lemma_two_values(cards, 1, v1, v2);
    lemma_paired_no_straight(cards, vt);
}

/// Two pairs of different ranks and a fifth card of a third rank, not all
/// of one suit, are two pair: the higher pair, the lower pair, the kicker.
pub proof fn law_two_pair(cards: Seq<Card>, p1: Rank, p2: Rank, k: Rank)
    requires
        cards.len() == 5,
        rank_value(p1) > rank_value(p2),
        k != p1 && k != p2,
        rank_count(cards, rank_value(p1)) == 2,
        rank_count(cards, rank_value(p2)) == 2,
        rank_count(cards, rank_value(k)) == 1,
        exists|i: int| 0 <= i < 5 && #[trigger] cards[i].suit != cards[0].suit,
    ensures
        hand_rank_of(cards) == HandRank::TwoPair(p1, p2, k),
{
    let a = rank_value(p1);
    let b = rank_value(p2);
    let vk = rank_value(k);
    lemma_rank_value_bounds(p1);
    lemma_rank_value_bounds(p2);
    lemma_rank_value_bounds(k);
    let named = seq![a, b, vk];
    assert(named.drop_last() =~= seq![a, b]);
    assert(seq![a, b].drop_last() =~= seq![a]);
    assert(seq![a].drop_last() =~= Seq::<int>::empty());
    reveal_with_fuel(sum_counts, 5);
    assert(sum_counts(cards, named) == 5);
    lemma_no_other_values(cards, named);
    assert forall|w: int| 2 <= w <= 14 implies #[trigger] rank_count(cards, w) == if w == a || w == b { 2int } else if w == vk { 1int } else { 0int } by {
        if w != a && w != b && w != vk {
            assert(!named.contains(w));
        }
    }
    lemma_no_value(cards, 4);
    lemma_no_value(cards, 3);
    lemma_two_values(cards, 2, a, b);
    lemma_one_value(cards, 1, vk);
    lemma_paired_no_straight(cards, a);
}

/// A pair and three single cards of three other ranks, not all of one
/// suit, are one pair with the single cards as kickers from high to low.
pub proof fn law_one_pair(cards: Seq<Card>, p: Rank, k1: Rank, k2: Rank, k3: Rank)
    requires
        cards.len() == 5,
        rank_value(k1) > rank_value(k2) > rank_value(k3),
        p != k1 && p != k2 && p != k3,
        rank_count(cards, rank_value(p)) == 2,
        rank_count(cards, rank_value(k1)) == 1,
        rank_count(cards, rank_value(k2)) == 1,
        rank_count(cards, rank_value(k3)) == 1,
        exists|i: int| 0 <= i < 5 && #[trigger] cards[i].suit != cards[0].suit,
    ensures
        hand_rank_of(cards) == HandRank::OnePair(p, k1, k2, k3),
{
    let vp = rank_value(p);
    let v1 = rank_value(k1);
    let v2 = rank_value(k2);
    let v3 = rank_value(k3);
    lemma_rank_value_bounds(p);
    lemma_rank_value_bounds(k1);
    lemma_rank_value_bounds(k2);
    lemma_rank_value_bounds(k3);
    let named = seq![vp, v1, v2, v3];
    assert(named.drop_last() =~= seq![vp, v1, v2]);
    assert(seq![vp, v1, v2].drop_last() =~= seq![vp, v1]);
    assert(seq![vp, v1].drop_last() =~= seq![vp]);
    assert(seq![vp].drop_last() =~= Seq::<int>::empty());
    reveal_with_fuel(sum_counts, 5);
    assert(sum_counts(cards, named) == 5);
    lemma_no_other_values(cards, named);
    assert forall|w: int| 2 <= w <= 14 implies #[trigger] rank_count(cards, w) == if w == vp { 2int } else if w == v1 || w == v2 || w == v3 { 1int } else { 0int } by {
        if w != vp && w != v1 && w != v2 && w != v3 {
            assert(!named.contains(w));
        }
    }
    lemma_no_value(cards, 4);
    lemma_no_value(cards, 3);
    lemma_one_value(cards, 2, vp);
    lemma_three_values(cards, 1, v1, v2, v3);
    lemma_paired_no_straight(cards, vp);
}

proof fn lemma_five_singles(cards: Seq<Card>, a: Rank, b: Rank, c: Rank, d: Rank, e: Rank)
    requires
        cards.len() == 5,
        rank_value(a) > rank_value(b) > rank_value(c) > rank_value(d) > rank_value(e),
        rank_count(cards, rank_value(a)) == 1,
        rank_count(cards, rank_value(b)) == 1,
        rank_count(cards, rank_value(c)) == 1,
        rank_count(cards, rank_value(d)) == 1,
        rank_count(cards, rank_value(e)) == 1,
    ensures
        ranks_desc(cards, 2) == seq![rank_value(a), rank_value(b), rank_value(c), rank_value(d), rank_value(e)],
        values_with_count(cards, 2, 2).len() == 0,
        values_with_count(cards, 3, 2).len() == 0,
        values_with_count(cards, 4, 2).len() == 0,
{
    let va = rank_value(a);
    let vb = rank_value(b);
    let vc = rank_value(c);
    let vd = rank_value(d);
    let ve = rank_value(e);
    lemma_rank_value_bounds(a);
    lemma_rank_value_bounds(e);
    let named = seq![va, vb, vc, vd, ve];
    reveal_with_fuel(sum_counts, 6);
    assert(named.drop_last() =~= seq![va, vb, vc, vd]);
    assert(seq![va, vb, vc, vd].drop_last() =~= seq![va, vb, vc]);
    assert(seq![va, vb, vc].drop_last() =~= seq![va, vb]);
    assert(seq![va, vb].drop_last() =~= seq![va]);
    assert(seq![va].drop_last() =~= Seq::<int>::empty());
    assert(sum_counts(cards, named) == 5);
    lemma_no_other_values(cards, named);
    assert forall|w: int| 2 <= w <= 14 implies #[trigger] rank_count(cards, w) == if named.contains(w) { 1int } else { 0int } by {
        if named.contains(w) {
            let x = choose|x: int| 0 <= x < 5 && named[x] == w;
            if x == 0 {
            } else if x == 1 {
            } else if x == 2 {
            } else if x == 3 {
            } else {
            }
        }
    }
    assert(strictly_down(named));
    lemma_values_with_count_is(cards, 1, 2, named);
    lemma_no_value(cards, 2);
    lemma_no_value(cards, 3);
    lemma_no_value(cards, 4);
    lemma_ranks_desc_single(cards, 2);
}

/// Five cards of one suit and of five different ranks that make no run
/// are a flush, its ranks listed from high to low.
pub proof fn law_flush(cards: Seq<Card>, a: Rank, b: Rank, c: Rank, d: Rank, e: Rank)
    requires
        cards.len() == 5,
        rank_value(a) > rank_value(b) > rank_value(c) > rank_value(d) > rank_value(e),
        rank_count(cards, rank_value(a)) == 1,
        rank_count(cards, rank_value(b)) == 1,
        rank_count(cards, rank_value(c)) == 1,
        rank_count(cards, rank_value(d)) == 1,
        rank_count(cards, rank_value(e)) == 1,
        rank_value(a) != rank_value(e) + 4,
        !(rank_value(a) == 14 && rank_value(b) == 5),
        forall|i: int| 0 <= i < 5 ==> #[trigger] cards[i].suit == cards[0].suit,
    ensures
        hand_rank_of(cards) == HandRank::Flush(a, b, c, d, e),
{
    lemma_five_singles(cards, a, b, c, d, e);
    lemma_rank_value_bounds(a);
    lemma_rank_value_bounds(b);
    lemma_rank_value_bounds(c);
    lemma_rank_value_bounds(d);
    lemma_rank_value_bounds(e);
}

/// Five cards of five different ranks that make no run, not all of one
/// suit, are a high-card hand, its ranks listed from high to low.
pub proof fn law_high_card(cards: Seq<Card>, a: Rank, b: Rank, c: Rank, d: Rank, e: Rank)
    requires
        cards.len() == 5,
        rank_value(a) > rank_value(b) > rank_value(c) > rank_value(d) > rank_value(e),
        rank_count(cards, rank_value(a)) == 1,
        rank_count(cards, rank_value(b)) == 1,
        rank_count(cards, rank_value(c)) == 1,
        rank_count(cards, rank_value(d)) == 1,
        rank_count(cards, rank_value(e)) == 1,
        rank_value(a) != rank_value(e) + 4,
        !(rank_value(a) == 14 && rank_value(b) == 5),
        exists|i: int| 0 <= i < 5 && #[trigger] cards[i].suit != cards[0].suit,
    ensures
        hand_rank_of(cards) == HandRank::HighCard(a, b, c, d, e),
{
    lemma_five_singles(cards, a, b, c, d, e);
    lemma_rank_value_bounds(a);
    lemma_rank_value_bounds(b);
    lemma_rank_value_bounds(c);
    lemma_rank_value_bounds(d);
    lemma_rank_value_bounds(e);
}

proof fn lemma_low_values_are(cards: Seq<Card>, hi: int, ws: Seq<int>)
    requires
        hi >= 0,
        forall|i: int, j: int| 0 <= i < j < ws.len() ==> #[trigger] ws[i] < #[trigger] ws[j],
        forall|i: int| 0 <= i < ws.len() ==> 1 <= #[trigger] ws[i] <= hi,
        forall|w: int| 1 <= w <= hi ==> (#[trigger] has_low_value(cards, w) <==> ws.contains(w)),
    ensures
        low_values_upto(cards, hi) == ws,
    decreases hi,
{
    if hi < 1 {
        if ws.len() > 0 {
            assert(1 <= ws[0] <= hi);
        }
        assert(ws =~= Seq::<int>::empty());
    } else if has_low_value(cards, hi) {
        assert(ws.contains(hi));
        let x = choose|x: int| 0 <= x < ws.len() && ws[x] == hi;
        if x < ws.len() - 1 {
            assert(ws[x] < ws[ws.len() - 1]);
        }
        let rest = ws.drop_last();
        assert forall|i: int| 0 <= i < rest.len() implies 1 <= #[trigger] rest[i] <= hi - 1 by {
            assert(rest[i] == ws[i]);
            assert(ws[i] < ws[ws.len() - 1]);
        }
        assert forall|w: int| 1 <= w <= hi - 1 implies (#[trigger] has_low_value(cards, w) <==> rest.contains(w)) by {
            if ws.contains(w) {
                let y = choose|y: int| 0 <= y < ws.len() && ws[y] == w;
                assert(y != ws.len() - 1);
                assert(rest[y] == w);
            }
            if rest.contains(w) {
                let y = choose|y: int| 0 <= y < rest.len() && rest[y] == w;
                assert(ws[y] == w);
            }
        }
        lemma_low_values_are(cards, hi - 1, rest);
        assert(ws =~= rest.push(hi));
    } else {
        assert forall|i: int| 0 <= i < ws.len() implies 1 <= #[trigger] ws[i] <= hi - 1 by {
            if ws[i] == hi {
                assert(ws.contains(hi));
            }
        }
        lemma_low_values_are(cards, hi - 1, ws);
    }
}

/// Cards whose low values (Ace playing one) are exactly five different
/// values, all eight or under, make an eight-or-better low of those five
/// ranks from the highest down: A-2-3-4-5 makes the low 5-4-3-2-A.
pub proof fn law_low_of_five(cards: Seq<Card>, a: Rank, b: Rank, c: Rank, d: Rank, e: Rank)
    requires
        8 >= low_value(a) > low_value(b) > low_value(c) > low_value(d) > low_value(e),
        has_low_value(cards, low_value(a)),
        has_low_value(cards, low_value(b)),
        has_low_value(cards, low_value(c)),
        has_low_value(cards, low_value(d)),
        has_low_value(cards, low_value(e)),
        forall|i: int|
            0 <= i < cards.len() ==> {
                let v = low_value(#[trigger] cards[i].rank);
                v == low_value(a) || v == low_value(b) || v == low_value(c) || v == low_value(d) || v == low_value(e)
            },
    ensures
        low_hand_of(cards) == Some(seq![a, b, c, d, e]),
{
    let ws = seq![low_value(e), low_value(d), low_value(c), low_value(b), low_value(a)];
    lemma_rank_value_bounds(e);
    assert(low_value(e) >= 1);
    assert forall|w: int| 1 <= w <= 8 implies (#[trigger] has_low_value(cards, w) <==> ws.contains(w)) by {
        if ws.contains(w) {
            let x = choose|x: int| 0 <= x < 5 && ws[x] == w;
            if x == 0 {
            } else if x == 1 {
            } else if x == 2 {
            } else if x == 3 {
            } else {
            }
        } else {
            assert(w != ws[0] && w != ws[1] && w != ws[2] && w != ws[3] && w != ws[4]);
            if has_low_value(cards, w) {
                let i = choose|i: int| 0 <= i < cards.len() && low_value(#[trigger] cards[i].rank) == w;
                assert(low_value(cards[i].rank) == w);
            }
        }
        if w == ws[0] {
            assert(ws.contains(w));
        }
        if w == ws[1] {
            assert(ws.contains(w));
        }
        if w == ws[2] {
            assert(ws.contains(w));
        }
        if w == ws[3] {
            assert(ws.contains(w));
        }
        if w == ws[4] {
            assert(ws.contains(w));
        }
    }
    lemma_low_values_are(cards, 8, ws);
    lemma_rank_value_bounds(a);
    lemma_rank_value_bounds(b);
    lemma_rank_value_bounds(c);
    lemma_rank_value_bounds(d);
    assert(rank_of_low_value(low_value(a)) == a);
    assert(rank_of_low_value(low_value(b)) == b);
    assert(rank_of_low_value(low_value(c)) == c);
    assert(rank_of_low_value(low_value(d)) == d);
    assert(rank_of_low_value(low_value(e)) == e);
    assert(low_hand_of(cards)->0 =~= seq![a, b, c, d, e]);
}

} // verus!
