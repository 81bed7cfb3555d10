//! Five-card ranking on the flat card-index representation (0..52) shared
//! with the GPU kernel, producing a single comparable score.
use vstd::prelude::*;

use crate::cards::{
    card_at_index, card_index, lemma_rank_of_value, lemma_rank_value_bounds, rank_value, suit_index,
    Card, Rank, Suit,
};
use crate::eval::{evaluate_5_cards, hand_rank_of, hand_rank_score, HandRank};

verus! {

/// Scores five cards given by deck index; a higher score is a stronger hand.
pub fn evaluate_5_cards_fast(cards: &[u8; 5]) -> (score: u32)
    requires
        forall|i: int| 0 <= i < 5 ==> cards@[i] < 52,
    ensures
        score == hand_rank_score(
            hand_rank_of(
                seq![
                    card_at_index(cards@[0] as int),
                    card_at_index(cards@[1] as int),
                    card_at_index(cards@[2] as int),
                    card_at_index(cards@[3] as int),
                    card_at_index(cards@[4] as int),
                ],
            ),
        ),
{
    let actual = [
        card_index_to_card(cards[0]),
        card_index_to_card(cards[1]),
        card_index_to_card(cards[2]),
        card_index_to_card(cards[3]),
        card_index_to_card(cards[4]),
    ];
    let rank = evaluate_5_cards(&actual);
    assert(actual@ =~= seq![
        card_at_index(cards@[0] as int),
        card_at_index(cards@[1] as int),
        card_at_index(cards@[2] as int),
        card_at_index(cards@[3] as int),
        card_at_index(cards@[4] as int),
    ]);
    hand_rank_to_score(rank)
}

/// The card at a deck index: `index % 13` gives the rank (Two first),
/// `index / 13` the suit (Spades first).
pub fn card_index_to_card(index: u8) -> (c: Card)
    requires
        index < 52,
    ensures
        c == card_at_index(index as int),
{
    let rank = Rank::from_value(index % 13 + 2);
    let suit = Suit::from_index(index / 13);
    Card { rank, suit }
}

/// The deck index of a card, `13 * suit + (rank - 2)`.
pub fn card_to_index(card: Card) -> (i: u8)
    ensures
        i == card_index(card),
        i < 52,
{
    proof {
        lemma_rank_value_bounds(card.rank);
    }
    let r = card.rank.value() - 2;
    let s = card.suit.index();
    s * 13 + r
}

/// Deck indices and cards correspond one to one: the index of the card at an
/// index is that index, and the card at the index of a card is that card.
pub proof fn law_card_index_roundtrip(c: Card, i: int)
    ensures
        0 <= card_index(c) < 52,
        card_at_index(card_index(c)) == c,
        0 <= i < 52 ==> card_index(card_at_index(i)) == i,
{
    lemma_rank_value_bounds(c.rank);
    let k = card_index(c);
    assert(k % 13 == rank_value(c.rank) - 2);
    assert(k / 13 == suit_index(c.suit));
    if 0 <= i < 52 {
        lemma_rank_of_value(i % 13 + 2);
    }
}

/// The score of a hand rank: category in the millions, tie-break ranks as
/// base-15 digits below.
pub fn hand_rank_to_score(rank: HandRank) -> (score: u32)
    ensures
        score == hand_rank_score(rank),
{
    proof {
        crate::eval::lemma_score_bounds(rank);
    }
    match rank {
        HandRank::StraightFlush(r) => 8000000 + r.value() as u32,
        HandRank::FourOfAKind(a, b) => 7000000 + a.value() as u32 * 15 + b.value() as u32,
        HandRank::FullHouse(a, b) => 6000000 + a.value() as u32 * 15 + b.value() as u32,
        HandRank::Flush(a, b, c, d, e) => 5000000 + a.value() as u32 * 50625 + b.value() as u32
            * 3375 + c.value() as u32 * 225 + d.value() as u32 * 15 + e.value() as u32,
        HandRank::Straight(r) => 4000000 + r.value() as u32,
        HandRank::ThreeOfAKind(a, b, c) => 3000000 + a.value() as u32 * 225 + b.value() as u32
            * 15 + c.value() as u32,
        HandRank::TwoPair(a, b, c) => 2000000 + a.value() as u32 * 225 + b.value() as u32 * 15
            + c.value() as u32,
        HandRank::OnePair(a, b, c, d) => 1000000 + a.value() as u32 * 3375 + b.value() as u32
            * 225 + c.value() as u32 * 15 + d.value() as u32,
        HandRank::HighCard(a, b, c, d, e) => a.value() as u32 * 50625 + b.value() as u32 * 3375
            + c.value() as u32 * 225 + d.value() as u32 * 15 + e.value() as u32,
    }
}

} // verus!
