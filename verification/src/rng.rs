//! Random dealing: the PCG random number generator of `rand_pcg` and the
//! shuffle of `rand`, and the hands dealt from a shuffled deck. A seeded
//! generator deals reproducibly.
use vstd::prelude::*;

use rand::seq::SliceRandom;
use rand::rngs::OsRng;
use rand::SeedableRng;
use rand_pcg::Pcg64;

use crate::cards::{canonical, card_index, deck_seq, full_deck, game_arity, sort_canonical, Card, Game, Hand};

verus! {

broadcast use vstd::seq_lib::group_to_multiset_ensures;

/// The 128-bit PCG generator of `rand_pcg` (`Pcg64`), carried through the
/// dealing code as an opaque value.
#[verifier::external_type_specification]
#[verifier::external_body]
pub struct ExPcg64(rand_pcg::Lcg128Xsl64);

/// The deck after `k` shuffles in a row, starting from `deck`, by one
/// `Pcg64` generator seeded with `seed` through `SeedableRng::seed_from_u64`
/// (each shuffle is `SliceRandom::shuffle` of `rand`). The generator is
/// deterministic, so this is a function of its arguments.
pub uninterp spec fn seeded_deck(deck: Seq<Card>, seed: u64, k: nat) -> Seq<Card>;

/// A `Pcg64` generator together with what it has shuffled so far: the seed
/// it was made from (none when seeded from system entropy), the deck it
/// started from, how many shuffles it has done and the deck the last one
/// left. The fields are only set by the constructors and by
/// [`DeckShuffler::shuffle`].
pub struct DeckShuffler {
    rng: Pcg64,
    seed: Ghost<Option<u64>>,
    start: Ghost<Seq<Card>>,
    last: Ghost<Seq<Card>>,
    done: Ghost<nat>,
}

impl DeckShuffler {
    /// The seed the generator was made from, if any.
    pub closed spec fn seed(&self) -> Option<u64> {
        self.seed@
    }

    /// The deck the generator started from.
    pub closed spec fn start(&self) -> Seq<Card> {
        self.start@
    }

    /// The deck as the last shuffle left it (the start before any).
    pub closed spec fn last(&self) -> Seq<Card> {
        self.last@
    }

    /// How many shuffles the generator has done.
    pub closed spec fn done(&self) -> nat {
        self.done@
    }

    /// A generator seeded from `seed`, about to shuffle `deck`.
    ///
    /// Trusted: calls `SeedableRng::seed_from_u64` of `rand_pcg::Pcg64`,
    /// which never fails; it claims only the bookkeeping above.
    #[verifier::external_body]
    pub fn seeded(seed: u64, deck: &Vec<Card>) -> (g: DeckShuffler)
        ensures
            g.seed() == Some(seed),
            g.start() == deck@,
            g.last() == deck@,
            g.done() == 0,
    {
        DeckShuffler { rng: Pcg64::seed_from_u64(seed), seed: Ghost(Some(seed)), start: Ghost(deck@), last: Ghost(deck@), done: Ghost(0) }
    }

    /// A generator seeded from system entropy, about to shuffle `deck`;
    /// `None` when the system cannot provide entropy.
    ///
    /// Trusted: calls `SeedableRng::from_rng` of `rand_pcg::Pcg64` with
    /// `rand_core::OsRng`, which returns an error instead of panicking; it
    /// claims only the bookkeeping above.
    #[verifier::external_body]
    pub fn from_entropy(deck: &Vec<Card>) -> (g: Option<DeckShuffler>)
        ensures
            g matches Some(x) ==> x.seed() is None && x.start() == deck@ && x.last() == deck@ && x.done() == 0,
    {
        match Pcg64::from_rng(OsRng) {
            Ok(rng) => Some(DeckShuffler { rng, seed: Ghost(None), start: Ghost(deck@), last: Ghost(deck@), done: Ghost(0) }),
            Err(_) => None,
        }
    }

    /// Shuffles `cards`, the deck the previous shuffle left.
    ///
    /// Trusted: calls `SliceRandom::shuffle` of `rand` 0.8, a Fisher-Yates
    /// shuffle made of swaps, so the result holds the same cards. For a
    /// seeded generator the result is the next deck of [`seeded_deck`];
    /// for one seeded from entropy, which order comes out is not stated.
    #[verifier::external_body]
    pub fn shuffle(&mut self, cards: &mut Vec<Card>)
        requires
            old(cards)@ == old(self).last(),
        ensures
            final(cards)@.to_multiset() == old(cards)@.to_multiset(),
            final(cards)@.len() == old(cards)@.len(),
            final(self).seed() == old(self).seed(),
            final(self).start() == old(self).start(),
            final(self).done() == old(self).done() + 1,
            final(self).last() == final(cards)@,
            old(self).seed() matches Some(s) ==> final(cards)@ == seeded_deck(old(self).start(), s, old(self).done() + 1),
    {
        cards.shuffle(&mut self.rng)
    }
}

/// The unshuffled deck without the dead cards, in deck order.
pub open spec fn undead_deck(dead: Seq<Card>) -> Seq<Card> {
    deck_seq().filter(|c: Card| !dead.contains(c))
}

/// `hands` are consecutive groups of `arity` cards, each put in canonical
/// order, dealt from some arrangement `p` of exactly the cards of `deck`.
pub open spec fn deals_from(hands: Seq<Hand>, deck: Seq<Card>, arity: int) -> bool {
    exists|p: Seq<Card>|
        p.to_multiset() == deck.to_multiset() && forall|i: int|
            0 <= i < hands.len() ==> #[trigger] hands[i].0@ == canonical(p.subrange(i * arity, i * arity + arity))
}

/// Whether the slice `s` holds `c`.
pub fn slice_contains(s: &[Card], c: Card) -> (b: bool)
    ensures
        b == s@.contains(c),
{
    let mut i: usize = 0;
    while i < s.len()
        invariant
            i <= s@.len(),
            forall|k: int| 0 <= k < i ==> s@[k] != c,
        decreases s@.len() - i,
    {
        if s[i] == c {
            return true;
        }
        i = i + 1;
    }
    false
}

/// The unshuffled deck without `dead_cards`.
pub fn deck_without(dead_cards: &[Card]) -> (deck: Vec<Card>)
    ensures
        deck@ == undead_deck(dead_cards@),
        deck@.no_duplicates(),
        deck@.len() <= 52,
{
    let all = full_deck();
    let ghost pred = |c: Card| !dead_cards@.contains(c);
    let mut deck: Vec<Card> = Vec::new();
    let mut i: usize = 0;
    while i < 52
        invariant
            i <= 52,
            all@ == deck_seq(),
            pred == (|c: Card| !dead_cards@.contains(c)),
            deck@ == deck_seq().take(i as int).filter(pred),
            deck@.no_duplicates(),
            deck@.len() <= i,
            forall|k: int| 0 <= k < deck@.len() ==> 0 <= #[trigger] card_index(deck@[k]) < i,
        decreases 52 - i,
    {
        let c = all[i];
        proof {
            crate::eval_fast::law_card_index_roundtrip(c, i as int);
            assert(deck_seq().take(i + 1) == deck_seq().take(i as int).push(c));
            deck_seq().take(i as int).lemma_filter_push(c, pred);
        }
        if !slice_contains(dead_cards, c) {
            deck.push(c);
        }
        i = i + 1;
    }
    assert(deck_seq().take(52) == deck_seq());
    deck
}

/// Hand `i` of the deal from the deck without `dead` shuffled once by a
/// generator seeded with `seed`: cards `i * arity .. (i + 1) * arity` of the
/// shuffled deck, in canonical order.
pub open spec fn seeded_deal(dead: Seq<Card>, seed: u64, arity: int, i: int) -> Seq<Card> {
    canonical(seeded_deck(undead_deck(dead), seed, 1).subrange(i * arity, i * arity + arity))
}

/// Deals `count` hands (4 cards each for Omaha, 2 for Hold'em) from one
/// shuffle of the deck without `dead_cards`: the first hand takes the first
/// cards of the shuffled deck, the next hand the following ones, and so on;
/// each hand is put in canonical order. With `rng_seed` the deal is
/// [`seeded_deal`], so the same seed deals the same hands; without it the
/// generator is seeded from system entropy, and `None` comes back when the
/// system cannot provide any.
pub fn random_hands(count: usize, dead_cards: &[Card], rng_seed: Option<u64>, game: Game) -> (r: Option<Vec<Hand>>)
    requires
        count * game_arity(game) <= undead_deck(dead_cards@).len(),
    ensures
        rng_seed is Some ==> r is Some,
        r matches Some(hands) ==> hands@.len() == count && deals_from(hands@, undead_deck(dead_cards@), game_arity(game)),
        r matches Some(hands) ==> forall|i: int|
            0 <= i < count && rng_seed is Some ==> #[trigger] hands@[i].0@ == seeded_deal(
                dead_cards@,
                rng_seed->0,
                game_arity(game),
                i,
            ),
{
    let mut deck = deck_without(dead_cards);
    let ghost undead = deck@;
    let mut gen = match rng_seed {
        Some(seed) => DeckShuffler::seeded(seed, &deck),
        None => match DeckShuffler::from_entropy(&deck) {
            Some(g) => g,
            None => {
                return None;
            },
        },
    };
    gen.shuffle(&mut deck);
    assert(rng_seed is Some ==> deck@ == seeded_deck(undead, rng_seed->0, 1));
    let arity: usize = match game {
        Game::Omaha => 4,
        Game::HoldEm => 2,
    };
    let mut hands: Vec<Hand> = Vec::new();
    let mut i: usize = 0;
    while i < count
        invariant
            i <= count,
            arity == game_arity(game),
            count * arity <= deck@.len(),
            deck@.len() <= 52,
            hands@.len() == i,
            forall|j: int| 0 <= j < i ==> #[trigger] hands@[j].0@ == canonical(deck@.subrange(j * arity, j * arity + arity)),
        decreases count - i,
    {
        proof {
            assert(i * arity + arity <= count * arity) by (nonlinear_arith)
                requires
                    i < count,
            ;
        }
        let start = i * arity;
        let mut chunk: Vec<Card> = Vec::new();
        let mut t: usize = 0;
        while t < arity
            invariant
                t <= arity,
                start + arity <= deck@.len(),
                deck@.len() <= 52,
                chunk@ == deck@.subrange(start as int, start + t),
            decreases arity - t,
        {
            chunk.push(deck[start + t]);
            assert(deck@.subrange(start as int, start + t + 1) == deck@.subrange(start as int, start + t).push(deck@[start + t]));
            t = t + 1;
        }
        hands.push(Hand(sort_canonical(chunk)));
        i = i + 1;
    }
    assert(deck@.to_multiset() == undead.to_multiset());
    Some(hands)
}

/// Deals one random hand (4 cards for Omaha, 2 for Hold'em) from the deck
/// without `dead_cards`; it is the first hand [`random_hands`] deals with
/// the same arguments, so with `rng_seed` it is [`seeded_deal`] of hand 0.
pub fn random_hand(dead_cards: &[Card], rng_seed: Option<u64>, game: Game) -> (r: Option<Hand>)
    requires
        game_arity(game) <= undead_deck(dead_cards@).len(),
    ensures
        rng_seed is Some ==> r is Some,
        r matches Some(hand) ==> deals_from(seq![hand], undead_deck(dead_cards@), game_arity(game)),
        r matches Some(hand) ==> (rng_seed is Some ==> hand.0@ == seeded_deal(dead_cards@, rng_seed->0, game_arity(game), 0)),
{
    match random_hands(1, dead_cards, rng_seed, game) {
        Some(hands) => {
            let mut hands = hands;
            let ghost dealt = hands@;
            let hand = hands.pop().unwrap();
            assert(dealt =~= seq![hand]);
            Some(hand)
        },
        None => None,
    }
}

/// Filtering a duplicate-free sequence leaves it duplicate-free.
pub proof fn lemma_filter_no_duplicates(s: Seq<Card>, pred: spec_fn(Card) -> bool)
    requires
        s.no_duplicates(),
    ensures
        s.filter(pred).no_duplicates(),
    decreases s.len(),
{
    if s.len() > 0 {
        let rest = s.drop_last();
        assert(rest.no_duplicates());
        lemma_filter_no_duplicates(rest, pred);
        assert(s == rest.push(s.last()));
        rest.lemma_filter_push(s.last(), pred);
        if pred(s.last()) {
            if rest.filter(pred).contains(s.last()) {
                rest.lemma_filter_contains_rev(pred, s.last());
                let k = choose|k: int| 0 <= k < rest.len() && rest[k] == s.last();
                assert(s[k] == s[s.len() - 1]);
            }
            let f = rest.filter(pred);
            assert forall|i: int, j: int| 0 <= i < f.len() + 1 && 0 <= j < f.len() + 1 && i != j implies
                f.push(s.last())[i] != f.push(s.last())[j] by {
                if i < f.len() && j < f.len() {
                } else if i < f.len() {
                    assert(f.contains(f[i]));
                } else {
                    assert(f.contains(f[j]));
                }
            }
        }
    }
}

/// Hands dealt by [`random_hands`] (or [`random_hand`]) never share a card,
/// never hold a dead card, and each holds the game's number of cards.
pub proof fn law_dealt_hands_disjoint(hands: Seq<Hand>, dead: Seq<Card>, game: Game, i: int, j: int, c: Card)
    requires
        hands.len() * game_arity(game) <= undead_deck(dead).len(),
        deals_from(hands, undead_deck(dead), game_arity(game)),
        0 <= i < hands.len(),
        0 <= j < hands.len(),
        i != j,
        hands[i].0@.contains(c),
    ensures
        !hands[j].0@.contains(c),
        !dead.contains(c),
        hands[i].0@.len() == game_arity(game),
{
    let a = game_arity(game);
    let undead = undead_deck(dead);
    let p = choose|p: Seq<Card>|
        p.to_multiset() == undead.to_multiset() && forall|k: int|
            0 <= k < hands.len() ==> #[trigger] hands[k].0@ == canonical(p.subrange(k * a, k * a + a));
    crate::equity::law_deck_distinct();
    lemma_filter_no_duplicates(deck_seq(), |x: Card| !dead.contains(x));
    crate::equity::lemma_same_cards_distinct(undead, p);
    assert(p.len() == undead.len()) by {
        assert(p.to_multiset().len() == undead.to_multiset().len());
    }
    assert((i + 1) * a <= hands.len() * a && (j + 1) * a <= hands.len() * a) by (nonlinear_arith)
        requires
            i < hands.len(),
            j < hands.len(),
            a >= 0,
    ;
    assert(i * a + a == (i + 1) * a && j * a + a == (j + 1) * a) by (nonlinear_arith);
    let si = p.subrange(i * a, i * a + a);
    let sj = p.subrange(j * a, j * a + a);
    crate::cards::lemma_canonical_total();
    si.lemma_sort_by_ensures(crate::cards::canonical_leq());
    sj.lemma_sort_by_ensures(crate::cards::canonical_leq());
    assert(hands[i].0@.to_multiset() == si.to_multiset());
    assert(hands[i].0@.len() == a) by {
        assert(hands[i].0@.to_multiset().len() == si.to_multiset().len());
    }
    assert(si.contains(c)) by {
        assert(hands[i].0@.to_multiset().count(c) > 0);
    }
    let x = choose|x: int| 0 <= x < si.len() && si[x] == c;
    assert(p[i * a + x] == c);
    assert(undead.contains(c)) by {
        assert(p.contains(p[i * a + x]));
    }
    let ui = choose|u: int| 0 <= u < undead.len() && undead[u] == c;
    deck_seq().lemma_filter_pred(|y: Card| !dead.contains(y), ui);
    if hands[j].0@.contains(c) {
        assert(sj.contains(c)) by {
            assert(hands[j].0@.to_multiset().count(c) > 0);
        }
        let y = choose|y: int| 0 <= y < sj.len() && sj[y] == c;
        assert(p[j * a + y] == c);
        if i < j {
            assert(i * a + x < j * a + y) by (nonlinear_arith)
                requires
                    i < j,
                    0 <= x < a,
                    0 <= y < a,
            ;
        } else {
            assert(j * a + y < i * a + x) by (nonlinear_arith)
                requires
                    j < i,
                    0 <= x < a,
                    0 <= y < a,
            ;
        }
    }
}


/// Each dealt hand on its own: it holds the game's number of cards, no card
/// twice, no dead card, and is in canonical order.
pub proof fn law_dealt_hand_shape(hands: Seq<Hand>, dead: Seq<Card>, game: Game, i: int)
    requires
        hands.len() * game_arity(game) <= undead_deck(dead).len(),
        deals_from(hands, undead_deck(dead), game_arity(game)),
        0 <= i < hands.len(),
    ensures
        hands[i].0@.len() == game_arity(game),
        hands[i].0@.no_duplicates(),
        forall|c: Card| hands[i].0@.contains(c) ==> !dead.contains(c),
        canonical(hands[i].0@) == hands[i].0@,
{
    let a = game_arity(game);
    let undead = undead_deck(dead);
    let p = choose|p: Seq<Card>|
        p.to_multiset() == undead.to_multiset() && forall|k: int|
            0 <= k < hands.len() ==> #[trigger] hands[k].0@ == canonical(p.subrange(k * a, k * a + a));
    crate::equity::law_deck_distinct();
    lemma_filter_no_duplicates(deck_seq(), |x: Card| !dead.contains(x));
    crate::equity::lemma_same_cards_distinct(undead, p);
    assert(p.len() == undead.len()) by {
        assert(p.to_multiset().len() == undead.to_multiset().len());
    }
    assert((i + 1) * a <= hands.len() * a) by (nonlinear_arith)
        requires
            i < hands.len(),
            a >= 0,
    ;
    assert(i * a + a == (i + 1) * a) by (nonlinear_arith);
    let si = p.subrange(i * a, i * a + a);
    let h = hands[i].0@;
    crate::cards::lemma_canonical_total();
    si.lemma_sort_by_ensures(crate::cards::canonical_leq());
    crate::cards::law_canonical_same_cards(si);
    crate::cards::law_canonical_idempotent(si);
    assert(si.no_duplicates()) by {
        assert forall|x: int, y: int| 0 <= x < si.len() && 0 <= y < si.len() && x != y implies si[x] != si[y] by {
            assert(si[x] == p[i * a + x] && si[y] == p[i * a + y]);
        }
    }
    assert(h.to_multiset() == si.to_multiset());
    si.lemma_multiset_has_no_duplicates();
    h.lemma_multiset_has_no_duplicates_conv();
    assert forall|c: Card| h.contains(c) implies !dead.contains(c) by {
        assert(h.to_multiset().count(c) > 0);
        assert(si.contains(c));
        let x = choose|x: int| 0 <= x < si.len() && si[x] == c;
        assert(p[i * a + x] == c);
        assert(p.contains(p[i * a + x]));
        assert(undead.to_multiset().count(c) > 0);
        assert(undead.contains(c));
        let ui = choose|u: int| 0 <= u < undead.len() && undead[u] == c;
        deck_seq().lemma_filter_pred(|y: Card| !dead.contains(y), ui);
    }
}

} // verus!
