//! Cards, hands and boards, with their notation and canonical ordering.
//!
//! Notation: a card is a rank character (`2`-`9`, `T`, `J`, `Q`, `K`, `A`)
//! followed by a suit character (`s`, `h`, `d`, `c`). Canonical order puts
//! higher ranks first and, between equal ranks, Spades before Hearts before
//! Diamonds before Clubs.
use vstd::prelude::*;
use vstd::relations::{sorted_by, total_ordering};
use vstd::seq_lib::lemma_sorted_unique;
use vstd::string::StrSliceExecFns;

verus! {

broadcast use vstd::seq_lib::group_to_multiset_ensures;

/// A card suit, declared in precedence order (Spades first).
#[derive(Debug, Clone, Copy, PartialEq, Eq, Hash, PartialOrd, Ord, Structural)]
pub enum Suit {
    Spades,
    Hearts,
    Diamonds,
    Clubs,
}

/// A card rank, `Two` through `Ace`, declared in ascending strength.
#[derive(Debug, Clone, Copy, PartialEq, Eq, Hash, PartialOrd, Ord, Structural)]
pub enum Rank {
    Two,
    Three,
    Four,
    Five,
    Six,
    Seven,
    Eight,
    Nine,
    Ten,
    Jack,
    Queen,
    King,
    Ace,
}

/// A single playing card.
#[derive(Debug, Clone, Copy, PartialEq, Eq, Hash, Structural)]
pub struct Card {
    pub rank: Rank,
    pub suit: Suit,
}

/// Which poker variant a hand belongs to: Omaha (4 hole cards, exactly two
/// of them play) or Hold'em (2 hole cards, any five of the seven play).
#[derive(Debug, Clone, Copy, PartialEq, Eq, Structural)]
pub enum Game {
    Omaha,
    HoldEm,
}

/// Hole cards, held in canonical order.
#[derive(Debug, Clone)]
pub struct Hand(pub Vec<Card>);

/// Community cards, held in canonical order.
#[derive(Debug, Clone)]
pub struct Board(pub Vec<Card>);

// ---------------------------------------------------------------------------
// Mathematical model
// ---------------------------------------------------------------------------

/// Numeric value of a rank: `Two` is 2, ..., `Ace` is 14.
pub open spec fn rank_value(r: Rank) -> int {
    match r {
        Rank::Two => 2,
        Rank::Three => 3,
        Rank::Four => 4,
        Rank::Five => 5,
        Rank::Six => 6,
        Rank::Seven => 7,
        Rank::Eight => 8,
        Rank::Nine => 9,
        Rank::Ten => 10,
        Rank::Jack => 11,
        Rank::Queen => 12,
        Rank::King => 13,
        Rank::Ace => 14,
    }
}

/// The rank whose value is `v` (meaningful for `2 <= v <= 14`).
pub open spec fn rank_of_value(v: int) -> Rank {
    if v <= 2 {
        Rank::Two
    } else if v == 3 {
        Rank::Three
    } else if v == 4 {
        Rank::Four
    } else if v == 5 {
        Rank::Five
    } else if v == 6 {
        Rank::Six
    } else if v == 7 {
        Rank::Seven
    } else if v == 8 {
        Rank::Eight
    } else if v == 9 {
        Rank::Nine
    } else if v == 10 {
        Rank::Ten
    } else if v == 11 {
        Rank::Jack
    } else if v == 12 {
        Rank::Queen
    } else if v == 13 {
        Rank::King
    } else {
        Rank::Ace
    }
}

/// Position of a suit in precedence order: Spades 0, Hearts 1, Diamonds 2, Clubs 3.
pub open spec fn suit_index(s: Suit) -> int {
    match s {
        Suit::Spades => 0,
        Suit::Hearts => 1,
        Suit::Diamonds => 2,
        Suit::Clubs => 3,
    }
}

/// The suit at position `i` of the precedence order (meaningful for `0 <= i < 4`).
pub open spec fn suit_of_index(i: int) -> Suit {
    if i <= 0 {
        Suit::Spades
    } else if i == 1 {
        Suit::Hearts
    } else if i == 2 {
        Suit::Diamonds
    } else {
        Suit::Clubs
    }
}

/// The rank a notation character stands for; both letter cases are accepted.
pub open spec fn rank_of_char(c: char) -> Option<Rank> {
    if c == '2' {
        Some(Rank::Two)
    } else if c == '3' {
        Some(Rank::Three)
    } else if c == '4' {
        Some(Rank::Four)
    } else if c == '5' {
        Some(Rank::Five)
    } else if c == '6' {
        Some(Rank::Six)
    } else if c == '7' {
        Some(Rank::Seven)
    } else if c == '8' {
        Some(Rank::Eight)
    } else if c == '9' {
        Some(Rank::Nine)
    } else if c == 'T' || c == 't' {
        Some(Rank::Ten)
    } else if c == 'J' || c == 'j' {
        Some(Rank::Jack)
    } else if c == 'Q' || c == 'q' {
        Some(Rank::Queen)
    } else if c == 'K' || c == 'k' {
        Some(Rank::King)
    } else if c == 'A' || c == 'a' {
        Some(Rank::Ace)
    } else {
        None
    }
}

/// The notation character of a rank (upper case for letters).
pub open spec fn rank_char(r: Rank) -> char {
    match r {
        Rank::Two => '2',
        Rank::Three => '3',
        Rank::Four => '4',
        Rank::Five => '5',
        Rank::Six => '6',
        Rank::Seven => '7',
        Rank::Eight => '8',
        Rank::Nine => '9',
        Rank::Ten => 'T',
        Rank::Jack => 'J',
        Rank::Queen => 'Q',
        Rank::King => 'K',
        Rank::Ace => 'A',
    }
}

/// The suit a notation character stands for; both letter cases are accepted.
pub open spec fn suit_of_char(c: char) -> Option<Suit> {
    if c == 's' || c == 'S' {
        Some(Suit::Spades)
    } else if c == 'h' || c == 'H' {
        Some(Suit::Hearts)
    } else if c == 'd' || c == 'D' {
        Some(Suit::Diamonds)
    } else if c == 'c' || c == 'C' {
        Some(Suit::Clubs)
    } else {
        None
    }
}

/// The notation character of a suit (lower case).
pub open spec fn suit_char(s: Suit) -> char {
    match s {
        Suit::Spades => 's',
        Suit::Hearts => 'h',
        Suit::Diamonds => 'd',
        Suit::Clubs => 'c',
    }
}

/// The card written by the two characters `r`, `s`, if both are valid.
pub open spec fn card_of_chars(r: char, s: char) -> Option<Card> {
    match (rank_of_char(r), suit_of_char(s)) {
        (Some(rank), Some(suit)) => Some(Card { rank, suit }),
        _ => None,
    }
}

/// The card a whole notation string stands for: exactly two characters,
/// a rank then a suit.
pub open spec fn card_of_notation(s: Seq<char>) -> Option<Card> {
    if s.len() == 2 {
        card_of_chars(s[0], s[1])
    } else {
        None
    }
}

/// Index of a card in the unshuffled deck: `13 * suit_index + (rank_value - 2)`,
/// so the deck runs 2s..As, 2h..Ah, 2d..Ad, 2c..Ac.
pub open spec fn card_index(c: Card) -> int {
    13 * suit_index(c.suit) + rank_value(c.rank) - 2
}

/// The card at deck index `i` (meaningful for `0 <= i < 52`).
pub open spec fn card_at_index(i: int) -> Card {
    Card { rank: rank_of_value(i % 13 + 2), suit: suit_of_index(i / 13) }
}

/// The full unshuffled deck.
pub open spec fn deck_seq() -> Seq<Card> {
    Seq::new(52, |i: int| card_at_index(i))
}

/// Position of a card in canonical order: higher rank first, then suit precedence.
pub open spec fn canonical_key(c: Card) -> int {
    (14 - rank_value(c.rank)) * 4 + suit_index(c.suit)
}

/// The canonical order on cards, as a relation.
pub open spec fn canonical_leq() -> spec_fn(Card, Card) -> bool {
    |a: Card, b: Card| canonical_key(a) <= canonical_key(b)
}

/// `cards` rearranged into canonical order.
pub open spec fn canonical(cards: Seq<Card>) -> Seq<Card> {
    cards.sort_by(canonical_leq())
}

/// Number of hole cards a hand of the given game holds.
pub open spec fn game_arity(g: Game) -> int {
    match g {
        Game::Omaha => 4,
        Game::HoldEm => 2,
    }
}

// ---------------------------------------------------------------------------
// Basic facts
// ---------------------------------------------------------------------------

pub proof fn lemma_rank_value_bounds(r: Rank)
    ensures
        2 <= rank_value(r) <= 14,
        rank_of_value(rank_value(r)) == r,
{
}

pub proof fn lemma_rank_of_value(v: int)
    requires
        2 <= v <= 14,
    ensures
        rank_value(rank_of_value(v)) == v,
{
}

/// The canonical key identifies a card, so the canonical order is total.
pub proof fn lemma_canonical_key_injective(a: Card, b: Card)
    ensures
        0 <= canonical_key(a) < 52,
        canonical_key(a) == canonical_key(b) ==> a == b,
{
    lemma_rank_value_bounds(a.rank);
    lemma_rank_value_bounds(b.rank);
    if canonical_key(a) == canonical_key(b) {
        assert(rank_value(a.rank) == rank_value(b.rank));
        assert(a.rank == b.rank) by {
            lemma_rank_value_bounds(a.rank);
            lemma_rank_value_bounds(b.rank);
        }
        assert(a.suit == b.suit);
    }
}

pub proof fn lemma_canonical_total()
    ensures
        total_ordering(canonical_leq()),
{
    assert forall|a: Card, b: Card|
        #[trigger] canonical_leq()(a, b) && #[trigger] canonical_leq()(b, a) implies a == b by {
        lemma_canonical_key_injective(a, b);
    }
}

/// A sequence that is sorted by key and holds the same cards as `s` is the
/// canonical form of `s`.
pub proof fn lemma_is_canonical(s: Seq<Card>, t: Seq<Card>)
    requires
        t.to_multiset() == s.to_multiset(),
        sorted_by(t, canonical_leq()),
    ensures
        t == canonical(s),
{
    lemma_canonical_total();
    s.lemma_sort_by_ensures(canonical_leq());
    lemma_sorted_unique(t, canonical(s), canonical_leq());
}

/// Canonical form depends only on which cards are given, not on their order:
/// two arrangements of the same cards have the same canonical form.
pub proof fn law_canonical_order_independent(a: Seq<Card>, b: Seq<Card>)
    requires
        a.to_multiset() == b.to_multiset(),
    ensures
        canonical(a) == canonical(b),
{
    lemma_canonical_total();
    a.lemma_sort_by_ensures(canonical_leq());
    b.lemma_sort_by_ensures(canonical_leq());
    lemma_sorted_unique(canonical(a), canonical(b), canonical_leq());
}

/// Putting cards that are already in canonical form into canonical form
/// changes nothing.
pub proof fn law_canonical_idempotent(a: Seq<Card>)
    ensures
        canonical(canonical(a)) == canonical(a),
{
    lemma_canonical_total();
    a.lemma_sort_by_ensures(canonical_leq());
    lemma_is_canonical(canonical(a), canonical(a));
}

/// Notation reads back what it writes: the character of a rank or suit
/// parses to that rank or suit, and a card's two characters parse to the
/// card.
pub proof fn law_notation_roundtrip(c: Card)
    ensures
        rank_of_char(rank_char(c.rank)) == Some(c.rank),
        suit_of_char(suit_char(c.suit)) == Some(c.suit),
        card_of_notation(seq![rank_char(c.rank), suit_char(c.suit)]) == Some(c),
{
}

/// Canonical order keeps the cards: the same cards, as many of each, and
/// so as many cards.
pub proof fn law_canonical_same_cards(a: Seq<Card>)
    ensures
        canonical(a).to_multiset() == a.to_multiset(),
        canonical(a).len() == a.len(),
{
    lemma_canonical_total();
    a.lemma_sort_by_ensures(canonical_leq());
    broadcast use vstd::seq_lib::group_to_multiset_ensures;
    assert(canonical(a).to_multiset().len() == a.to_multiset().len());
}

// ---------------------------------------------------------------------------
// Executable code
// ---------------------------------------------------------------------------

impl Rank {
    /// All thirteen ranks, `Two` first.
    pub fn all() -> (v: Vec<Rank>)
        ensures
            v@.len() == 13,
            forall|i: int| 0 <= i < 13 ==> rank_value(#[trigger] v@[i]) == i + 2,
    {
        vec![
            Rank::Two,
            Rank::Three,
            Rank::Four,
            Rank::Five,
            Rank::Six,
            Rank::Seven,
            Rank::Eight,
            Rank::Nine,
            Rank::Ten,
            Rank::Jack,
            Rank::Queen,
            Rank::King,
            Rank::Ace,
        ]
    }

    /// Numeric value of the rank: `Two` is 2, ..., `Ace` is 14.
    pub fn value(self) -> (v: u8)
        ensures
            v == rank_value(self),
            2 <= v <= 14,
    {
        match self {
            Rank::Two => 2,
            Rank::Three => 3,
            Rank::Four => 4,
            Rank::Five => 5,
            Rank::Six => 6,
            Rank::Seven => 7,
            Rank::Eight => 8,
            Rank::Nine => 9,
            Rank::Ten => 10,
            Rank::Jack => 11,
            Rank::Queen => 12,
            Rank::King => 13,
            Rank::Ace => 14,
        }
    }

    /// The rank with numeric value `v`.
    pub fn from_value(v: u8) -> (r: Rank)
        requires
            2 <= v <= 14,
        ensures
            r == rank_of_value(v as int),
            rank_value(r) == v,
    {
        match v {
            2 => Rank::Two,
            3 => Rank::Three,
            4 => Rank::Four,
            5 => Rank::Five,
            6 => Rank::Six,
            7 => Rank::Seven,
            8 => Rank::Eight,
            9 => Rank::Nine,
            10 => Rank::Ten,
            11 => Rank::Jack,
            12 => Rank::Queen,
            13 => Rank::King,
            _ => Rank::Ace,
        }
    }

    /// Parses the rank character of card notation (case-insensitive).
    pub fn from_char(c: char) -> (r: Option<Rank>)
        ensures
            r == rank_of_char(c),
    {
        match c {
            '2' => Some(Rank::Two),
            '3' => Some(Rank::Three),
            '4' => Some(Rank::Four),
            '5' => Some(Rank::Five),
            '6' => Some(Rank::Six),
            '7' => Some(Rank::Seven),
            '8' => Some(Rank::Eight),
            '9' => Some(Rank::Nine),
            'T' | 't' => Some(Rank::Ten),
            'J' | 'j' => Some(Rank::Jack),
            'Q' | 'q' => Some(Rank::Queen),
            'K' | 'k' => Some(Rank::King),
            'A' | 'a' => Some(Rank::Ace),
            _ => None,
        }
    }

    /// Renders the rank as its notation character.
    pub fn to_char(self) -> (c: char)
        ensures
            c == rank_char(self),
    {
        match self {
            Rank::Two => '2',
            Rank::Three => '3',
            Rank::Four => '4',
            Rank::Five => '5',
            Rank::Six => '6',
            Rank::Seven => '7',
            Rank::Eight => '8',
            Rank::Nine => '9',
            Rank::Ten => 'T',
            Rank::Jack => 'J',
            Rank::Queen => 'Q',
            Rank::King => 'K',
            Rank::Ace => 'A',
        }
    }
}

impl Suit {
    /// All four suits in precedence order (`Spades` first).
    pub fn all() -> (v: Vec<Suit>)
        ensures
            v@.len() == 4,
            forall|i: int| 0 <= i < 4 ==> suit_index(#[trigger] v@[i]) == i,
    {
        vec![Suit::Spades, Suit::Hearts, Suit::Diamonds, Suit::Clubs]
    }

    /// Position of the suit in precedence order (Spades 0 .. Clubs 3).
    pub fn index(self) -> (i: u8)
        ensures
            i == suit_index(self),
    {
        match self {
            Suit::Spades => 0,
            Suit::Hearts => 1,
            Suit::Diamonds => 2,
            Suit::Clubs => 3,
        }
    }

    /// The suit at position `i` of the precedence order.
    pub fn from_index(i: u8) -> (s: Suit)
        requires
            i < 4,
        ensures
            s == suit_of_index(i as int),
            suit_index(s) == i,
    {
        match i {
            0 => Suit::Spades,
            1 => Suit::Hearts,
            2 => Suit::Diamonds,
            _ => Suit::Clubs,
        }
    }

    /// Parses the suit character of card notation (case-insensitive).
    pub fn from_char(c: char) -> (s: Option<Suit>)
        ensures
            s == suit_of_char(c),
    {
        match c {
            's' | 'S' => Some(Suit::Spades),
            'h' | 'H' => Some(Suit::Hearts),
            'd' | 'D' => Some(Suit::Diamonds),
            'c' | 'C' => Some(Suit::Clubs),
            _ => None,
        }
    }

    /// Renders the suit as its notation character.
    pub fn to_char(self) -> (c: char)
        ensures
            c == suit_char(self),
    {
        match self {
            Suit::Spades => 's',
            Suit::Hearts => 'h',
            Suit::Diamonds => 'd',
            Suit::Clubs => 'c',
        }
    }
}

impl Card {
    /// The card of the given rank and suit.
    pub fn new(rank: Rank, suit: Suit) -> (c: Card)
        ensures
            c == (Card { rank, suit }),
    {
        Card { rank, suit }
    }

    /// Parses card notation such as `"As"`: exactly a rank character then a
    /// suit character. Anything else is `None`.
    pub fn from_str(s: &str) -> (c: Option<Card>)
        ensures
            c == card_of_notation(s@),
    {
        if s.unicode_len() != 2 {
            return None;
        }
        let r = Rank::from_char(s.get_char(0));
        let t = Suit::from_char(s.get_char(1));
        match (r, t) {
            (Some(rank), Some(suit)) => Some(Card { rank, suit }),
            _ => None,
        }
    }

    /// Renders the card in notation, e.g. `"As"`.
    pub fn to_string(&self) -> (s: String)
        ensures
            s@ == seq![rank_char(self.rank), suit_char(self.suit)],
    {
        two_char_string(self.rank.to_char(), self.suit.to_char())
    }

    /// Position of the card in canonical order (0 for `As` .. 51 for `2c`).
    pub fn canonical_key(&self) -> (k: u8)
        ensures
            k == canonical_key(*self),
    {
        (14 - self.rank.value()) * 4 + self.suit.index()
    }
}

/// Builds the two-character string `a` followed by `b`.
///
/// Trusted: formats the two characters with `std::format!`, which writes each
/// `char` as itself.
#[verifier::external_body]
fn two_char_string(a: char, b: char) -> (s: String)
    ensures
        s@ == seq![a, b],
{
    format!("{}{}", a, b)
}

/// A full, unshuffled 52-card deck: suits in precedence order, ranks from
/// `Two` to `Ace` within each suit.
pub fn full_deck() -> (deck: Vec<Card>)
    ensures
        deck@ == deck_seq(),
{
    let suits = Suit::all();
    let ranks = Rank::all();
    let mut deck: Vec<Card> = Vec::with_capacity(52);
    let mut s: usize = 0;
    while s < 4
        invariant
            s <= 4,
            suits@.len() == 4,
            ranks@.len() == 13,
            forall|i: int| 0 <= i < 4 ==> suit_index(#[trigger] suits@[i]) == i,
            forall|i: int| 0 <= i < 13 ==> rank_value(#[trigger] ranks@[i]) == i + 2,
            deck@ == deck_seq().take(13 * s as int),
        decreases 4 - s,
    {
        let mut r: usize = 0;
        while r < 13
            invariant
                s < 4,
                r <= 13,
                suits@.len() == 4,
                ranks@.len() == 13,
                forall|i: int| 0 <= i < 4 ==> suit_index(#[trigger] suits@[i]) == i,
                forall|i: int| 0 <= i < 13 ==> rank_value(#[trigger] ranks@[i]) == i + 2,
                deck@ == deck_seq().take(13 * s + r),
            decreases 13 - r,
        {
            let c = Card { rank: ranks[r], suit: suits[s] };
            proof {
                let k = 13 * s + r;
                assert(k % 13 == r as int && k / 13 == s as int);
                lemma_rank_value_bounds(c.rank);
                assert(card_at_index(k) == c);
                assert(deck_seq().take(k + 1) == deck_seq().take(k).push(c));
            }
            deck.push(c);
            r = r + 1;
        }
        s = s + 1;
    }
    assert(deck_seq().take(52) == deck_seq());
    deck
}

/// `cards` rearranged into canonical order.
pub fn sort_canonical(cards: Vec<Card>) -> (out: Vec<Card>)
    ensures
        out@ == canonical(cards@),
{
    broadcast use vstd::multiset::group_multiset_axioms;

    let ghost orig = cards@;
    let mut rest = cards;
    let mut out: Vec<Card> = Vec::new();
    while rest.len() > 0
        invariant
            out@.to_multiset().add(rest@.to_multiset()) == orig.to_multiset(),
            sorted_by(out@, canonical_leq()),
            forall|i: int, j: int|
                0 <= i < out@.len() && 0 <= j < rest@.len() ==> canonical_key(#[trigger] out@[i])
                    <= canonical_key(#[trigger] rest@[j]),
        decreases rest@.len(),
    {
        let mut m: usize = 0;
        let mut i: usize = 1;
        while i < rest.len()
            invariant
                0 <= m < rest@.len(),
                1 <= i <= rest@.len(),
                forall|j: int| 0 <= j < i ==> canonical_key(rest@[m as int]) <= canonical_key(
                    #[trigger] rest@[j],
                ),
            decreases rest@.len() - i,
        {
            if rest[i].canonical_key() < rest[m].canonical_key() {
                m = i;
            }
            i = i + 1;
        }
        let ghost old_rest = rest@;
        let ghost old_out = out@;
        let c = rest.remove(m);
        out.push(c);
        proof {
            assert(rest@ == old_rest.remove(m as int));
            assert(rest@.to_multiset() == old_rest.to_multiset().remove(c));
            assert(out@.to_multiset() == old_out.to_multiset().insert(c));
            assert(old_rest.to_multiset().contains(c));
            assert(out@.to_multiset().add(rest@.to_multiset()) =~= orig.to_multiset());
            assert forall|i: int, j: int| 0 <= i < j < out@.len() implies #[trigger] canonical_leq()(
                out@[i],
                out@[j],
            ) by {
                if j < out@.len() - 1 {
                    assert(canonical_leq()(old_out[i], old_out[j]));
                } else {
                    assert(old_rest[m as int] == c);
                }
            }
            assert forall|i: int, j: int|
                0 <= i < out@.len() && 0 <= j < rest@.len() implies canonical_key(
                #[trigger] out@[i],
            ) <= canonical_key(#[trigger] rest@[j]) by {
                let jj = if j < m { j } else { j + 1 };
                assert(rest@[j] == old_rest[jj]);
                if i < out@.len() - 1 {
                    assert(out@[i] == old_out[i]);
                }
            }
        }
    }
    proof {
        assert(rest@.to_multiset() =~= vstd::multiset::Multiset::empty());
        assert(out@.to_multiset() =~= orig.to_multiset());
        lemma_is_canonical(orig, out@);
    }
    out
}

impl Hand {
    /// An Omaha hand: the four cards in canonical order.
    pub fn new(cards: [Card; 4]) -> (h: Hand)
        ensures
            h.0@ == canonical(cards@),
    {
        let v = vec![cards[0], cards[1], cards[2], cards[3]];
        assert(v@ == cards@);
        Hand(sort_canonical(v))
    }

    /// An Omaha hand: the four cards in canonical order (same as [`Hand::new`]).
    pub fn omaha(cards: [Card; 4]) -> (h: Hand)
        ensures
            h.0@ == canonical(cards@),
    {
        Hand::new(cards)
    }

    /// A Hold'em hand: the two cards in canonical order.
    pub fn holdem(cards: [Card; 2]) -> (h: Hand)
        ensures
            h.0@ == canonical(cards@),
    {
        let v = vec![cards[0], cards[1]];
        assert(v@ == cards@);
        Hand(sort_canonical(v))
    }

    /// The game this hand's number of cards implies: 2 cards for Hold'em,
    /// 4 for Omaha.
    pub fn game(&self) -> (g: Game)
        requires
            self.0@.len() == 2 || self.0@.len() == 4,
        ensures
            game_arity(g) == self.0@.len(),
    {
        if self.0.len() == 2 {
            Game::HoldEm
        } else {
            Game::Omaha
        }
    }
}

impl Board {
    /// A board: the given cards in canonical order.
    pub fn new(cards: Vec<Card>) -> (b: Board)
        ensures
            b.0@ == canonical(cards@),
    {
        Board(sort_canonical(cards))
    }
}

impl Default for Game {
    /// Omaha is the default game.
    fn default() -> (g: Game)
        ensures
            g == Game::Omaha,
    {
        Game::Omaha
    }
}

} // verus!
