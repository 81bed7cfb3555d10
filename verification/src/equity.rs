//! Equity of one hand against another: every showdown over the possible
//! completions of the board, tallied as wins, ties and losses (and, for
//! Omaha eight-or-better, the same for the low half of the pot).
//!
//! Results are kept as exact counts; the fractions `wins / trials` etc. are
//! what callers report as equity.
use vstd::prelude::*;

use rand_pcg::Pcg64;

use crate::cards::{card_at_index, card_index, deck_seq, full_deck, game_arity, Board, Card, Game, Hand, Rank};
use crate::eval::{beats, low_view, HandRank};
use crate::eval_fast::{hand_rank_to_score, law_card_index_roundtrip};
use crate::range::{hands_view, Range};
use crate::rng::{seeded_deck, DeckShuffler};
use crate::showdown::{
    evaluate_holdem_hand, evaluate_omaha_hand, evaluate_omaha_hand_low, is_best_holdem, is_best_omaha,
    is_best_omaha_low, law_best_holdem_unique, law_best_omaha_low_unique, law_best_omaha_unique, lex_lt,
    low_beats, low_values,
};

verus! {

broadcast use vstd::seq_lib::group_to_multiset_ensures;

/// How an equity calculation is carried out.
#[derive(Debug, Clone, Copy, PartialEq, Eq, Structural)]
pub enum EvalMode {
    /// Exhaustive when at least three board cards are known, otherwise Monte
    /// Carlo with 10,000 samples and seed 42.
    Auto,
    /// Every completion of the board; needs at least three known board cards
    /// (with fewer it falls back as `Auto` does).
    Exhaustive,
    /// `samples` random completions of the board from a generator seeded
    /// with `seed`.
    MonteCarlo { samples: u64, seed: u64 },
}

/// Exact counts behind an equity result. `hero_wins / trial_count`,
/// `ties / trial_count` and `villain_wins / trial_count` are the high-hand
/// win, tie and loss fractions. With `hi_lo`, the `_low` counts are taken over
/// the `low_count` trials in which at least one player makes a low.
#[derive(Debug, Clone, Copy, PartialEq, Eq, Structural)]
pub struct EquityTally {
    pub hero_wins: u64,
    pub ties: u64,
    pub villain_wins: u64,
    pub hero_wins_low: u64,
    pub ties_low: u64,
    pub villain_wins_low: u64,
    pub low_count: u64,
    /// Number of board completions (exhaustive) or samples (Monte Carlo).
    pub trial_count: u64,
    /// The mode actually used (`Auto` resolved).
    pub mode: EvalMode,
    /// Whether the low half was evaluated.
    pub hi_lo: bool,
}

/// The counts of one hand of a hero range against one hand of a villain
/// range, by their positions in the ranges.
#[derive(Debug, Clone, Copy, PartialEq, Eq, Structural)]
pub struct Matchup {
    pub hero: usize,
    pub villain: usize,
    pub tally: EquityTally,
}

// ---------------------------------------------------------------------------
// Model
// ---------------------------------------------------------------------------

/// The Omaha high hand, as a function.
pub open spec fn omaha_rank(hand: Seq<Card>, board: Seq<Card>) -> HandRank {
    choose|r: HandRank| is_best_omaha(hand, board, r)
}

/// The Hold'em hand, as a function.
pub open spec fn holdem_rank(hand: Seq<Card>, board: Seq<Card>) -> HandRank {
    choose|r: HandRank| is_best_holdem(hand, board, r)
}

/// The Omaha eight-or-better low, as a function.
pub open spec fn omaha_low(hand: Seq<Card>, board: Seq<Card>) -> Option<Seq<Rank>> {
    choose|r: Option<Seq<Rank>>| is_best_omaha_low(hand, board, r)
}

/// The high hand a player makes in the given game.
pub open spec fn player_rank(hand: Seq<Card>, board: Seq<Card>, game: Game) -> HandRank {
    match game {
        Game::Omaha => omaha_rank(hand, board),
        Game::HoldEm => holdem_rank(hand, board),
    }
}

/// Outcome of the high half on a full board: 1 hero wins, 0 tie, -1 villain wins.
pub open spec fn hi_result(hero: Seq<Card>, villain: Seq<Card>, board: Seq<Card>, game: Game) -> int {
    let h = player_rank(hero, board, game);
    let v = player_rank(villain, board, game);
    if beats(h, v) {
        1
    } else if beats(v, h) {
        -1
    } else {
        0
    }
}

/// Outcome of the low half on a full board: 1 hero wins, 0 tie, -1 villain
/// wins, 2 when neither player makes a low.
pub open spec fn low_result(hero: Seq<Card>, villain: Seq<Card>, board: Seq<Card>) -> int {
    match (omaha_low(hero, board), omaha_low(villain, board)) {
        (Some(h), Some(v)) => if lex_lt(low_values(h), low_values(v)) {
            1
        } else if lex_lt(low_values(v), low_values(h)) {
            -1
        } else {
            0
        },
        (Some(_), None) => 1,
        (None, Some(_)) => -1,
        (None, None) => 2,
    }
}

/// Number of the given full boards whose high outcome is `v`.
pub open spec fn hi_count(hero: Seq<Card>, villain: Seq<Card>, boards: Seq<Seq<Card>>, game: Game, v: int) -> nat
    decreases boards.len(),
{
    if boards.len() == 0 {
        0
    } else {
        hi_count(hero, villain, boards.drop_last(), game, v) + if hi_result(hero, villain, boards.last(), game) == v {
            1nat
        } else {
            0nat
        }
    }
}

/// Number of the given full boards whose low outcome is `v`.
pub open spec fn low_count(hero: Seq<Card>, villain: Seq<Card>, boards: Seq<Seq<Card>>, v: int) -> nat
    decreases boards.len(),
{
    if boards.len() == 0 {
        0
    } else {
        low_count(hero, villain, boards.drop_last(), v) + if low_result(hero, villain, boards.last()) == v {
            1nat
        } else {
            0nat
        }
    }
}

/// `t` counts the showdowns of `hero` against `villain` on exactly the full
/// boards `boards`.
pub open spec fn tally_matches(
    t: EquityTally,
    hero: Seq<Card>,
    villain: Seq<Card>,
    boards: Seq<Seq<Card>>,
    hi_lo: bool,
    game: Game,
) -> bool {
    &&& t.trial_count == boards.len()
    &&& t.hero_wins == hi_count(hero, villain, boards, game, 1)
    &&& t.ties == hi_count(hero, villain, boards, game, 0)
    &&& t.villain_wins == hi_count(hero, villain, boards, game, -1)
    &&& hi_lo ==> {
        &&& t.hero_wins_low == low_count(hero, villain, boards, 1)
        &&& t.ties_low == low_count(hero, villain, boards, 0)
        &&& t.villain_wins_low == low_count(hero, villain, boards, -1)
    }
    &&& !hi_lo ==> t.hero_wins_low == 0 && t.ties_low == 0 && t.villain_wins_low == 0
    &&& t.low_count == t.hero_wins_low + t.ties_low + t.villain_wins_low
}

/// A card none of the players' or board cards is.
pub open spec fn is_live(hero: Seq<Card>, villain: Seq<Card>, board: Seq<Card>, c: Card) -> bool {
    !hero.contains(c) && !villain.contains(c) && !board.contains(c)
}

/// The cards left to deal, in deck order.
pub open spec fn live_deck(hero: Seq<Card>, villain: Seq<Card>, board: Seq<Card>) -> Seq<Card> {
    deck_seq().filter(|c: Card| is_live(hero, villain, board, c))
}

/// The full boards that add two of `deck` to `board`, row by row: the first
/// `m` cards of `deck` each paired with every later card.
pub open spec fn pair_boards(board: Seq<Card>, deck: Seq<Card>, m: int) -> Seq<Seq<Card>>
    decreases m,
{
    if m <= 0 {
        Seq::empty()
    } else {
        pair_boards(board, deck, m - 1) + pair_row(board, deck, m - 1)
    }
}

/// The full boards that add card `i` of `deck` and one later card to `board`.
pub open spec fn pair_row(board: Seq<Card>, deck: Seq<Card>, i: int) -> Seq<Seq<Card>> {
    Seq::new((deck.len() - i - 1) as nat, |t: int| board.push(deck[i]).push(deck[i + 1 + t]))
}

/// Every completion of `board` to five cards from `deck`, in deck order.
pub open spec fn exhaustive_boards(board: Seq<Card>, deck: Seq<Card>) -> Seq<Seq<Card>> {
    if board.len() >= 5 {
        seq![board]
    } else if board.len() == 4 {
        Seq::new(deck.len(), |i: int| board.push(deck[i]))
    } else {
        pair_boards(board, deck, deck.len() as int)
    }
}

/// `full` completes `board` with distinct cards of `deck`.
pub open spec fn is_completion(board: Seq<Card>, deck: Seq<Card>, full: Seq<Card>) -> bool {
    &&& full.len() == 5
    &&& full.take(board.len() as int) == board
    &&& full.skip(board.len() as int).no_duplicates()
    &&& forall|x: Card| full.skip(board.len() as int).contains(x) ==> deck.contains(x)
}

/// The mode a request is carried out in.
pub open spec fn resolved_mode(mode: EvalMode, board_len: int) -> EvalMode {
    match mode {
        EvalMode::MonteCarlo { samples, seed } => EvalMode::MonteCarlo { samples, seed },
        _ => if board_len >= 3 {
            EvalMode::Exhaustive
        } else {
            EvalMode::MonteCarlo { samples: 10000, seed: 42 }
        },
    }
}

/// The boards a seeded Monte Carlo count deals: board `k` is `board`
/// followed by the first cards of `deck` after its `k + 1`-th shuffle by a
/// generator seeded with `seed` (one generator, shuffling the same deck
/// again and again).
pub open spec fn seeded_boards(board: Seq<Card>, deck: Seq<Card>, seed: u64, samples: nat) -> Seq<Seq<Card>> {
    Seq::new(samples, |k: int| board + seeded_deck(deck, seed, (k + 1) as nat).take(5 - board.len()))
}

/// What [`evaluate_hand_vs_hand`] returns: according to the resolved mode,
/// an exhaustive count over every completion of the board, or a count over
/// the `samples` seeded boards, each of which completes the board with
/// distinct live cards.
pub open spec fn hand_vs_hand_result(
    t: EquityTally,
    hero: Seq<Card>,
    villain: Seq<Card>,
    board: Seq<Card>,
    mode: EvalMode,
    hi_lo: bool,
    game: Game,
) -> bool {
    let deck = live_deck(hero, villain, board);
    &&& t.hi_lo == hi_lo
    &&& t.mode == resolved_mode(mode, board.len() as int)
    &&& t.mode is Exhaustive ==> tally_matches(t, hero, villain, exhaustive_boards(board, deck), hi_lo, game)
    &&& t.mode is MonteCarlo ==> {
        let boards = seeded_boards(board, deck, t.mode->seed, t.mode->samples as nat);
        &&& tally_matches(t, hero, villain, boards, hi_lo, game)
        &&& forall|k: int| 0 <= k < boards.len() ==> is_completion(board, deck, #[trigger] boards[k])
    }
}

/// When the mode samples, enough live cards are left to complete the board.
pub open spec fn can_complete(hero: Seq<Card>, villain: Seq<Card>, board: Seq<Card>, mode: EvalMode) -> bool {
    resolved_mode(mode, board.len() as int) is MonteCarlo ==> live_deck(hero, villain, board).len() + board.len() >= 5
}

/// Some card of `h` is among `cards`.
pub open spec fn shares_card(h: Seq<Card>, cards: Seq<Card>) -> bool {
    exists|i: int| 0 <= i < h.len() && cards.contains(#[trigger] h[i])
}

/// Positions, below `m`, of the villain hands that share no card with the
/// hero's hand or the board.
pub open spec fn kept_villains(hero: Seq<Card>, villains: Seq<Seq<Card>>, board: Seq<Card>, m: int) -> Seq<int>
    decreases m,
{
    if m <= 0 {
        Seq::empty()
    } else {
        kept_villains(hero, villains, board, m - 1) + if shares_card(villains[m - 1], hero) || shares_card(
            villains[m - 1],
            board,
        ) {
            Seq::empty()
        } else {
            seq![m - 1]
        }
    }
}

/// The matchups of a range-vs-range calculation, as positions `(hero,
/// villain)`: hero hands below `m` that miss the board, each against every
/// villain hand that shares no card with it or the board, in order.
pub open spec fn range_pairs(heroes: Seq<Seq<Card>>, villains: Seq<Seq<Card>>, board: Seq<Card>, m: int) -> Seq<(int, int)>
    decreases m,
{
    if m <= 0 {
        Seq::empty()
    } else {
        range_pairs(heroes, villains, board, m - 1) + if shares_card(heroes[m - 1], board) {
            Seq::empty()
        } else {
            kept_villains(heroes[m - 1], villains, board, villains.len() as int).map_values(|j: int| (m - 1, j))
        }
    }
}

/// Both hands have the game's number of cards and, when the mode samples,
/// enough live cards are left to complete the board.
pub open spec fn pair_ready(hero: Seq<Card>, villain: Seq<Card>, board: Seq<Card>, mode: EvalMode, game: Game) -> bool {
    &&& hero.len() == game_arity(game)
    &&& villain.len() == game_arity(game)
    &&& can_complete(hero, villain, board, mode)
}

/// Every villain hand that plays against `hero` (it shares no card with it
/// or the board) is ready against it.
pub open spec fn villains_ready(
    hero: Seq<Card>,
    villains: Seq<Seq<Card>>,
    board: Seq<Card>,
    mode: EvalMode,
    game: Game,
) -> bool {
    forall|j: int|
        0 <= j < villains.len() && !shares_card(villains[j], hero) && !shares_card(villains[j], board)
            ==> pair_ready(hero, #[trigger] villains[j], board, mode, game)
}

/// Every pair of hands that plays (a hero hand that misses the board
/// against a villain hand that shares no card with it or the board) is
/// ready; hands that never play are not looked at.
pub open spec fn range_ready(
    heroes: Seq<Seq<Card>>,
    villains: Seq<Seq<Card>>,
    board: Seq<Card>,
    mode: EvalMode,
    game: Game,
) -> bool {
    forall|i: int|
        0 <= i < heroes.len() && !shares_card(heroes[i], board) ==> villains_ready(
            #[trigger] heroes[i],
            villains,
            board,
            mode,
            game,
        )
}

/// `out` holds, for each matchup of `pairs` in order, its positions and the
/// counts [`evaluate_hand_vs_hand`] gives for it.
pub open spec fn matchups_match(
    out: Seq<Matchup>,
    pairs: Seq<(int, int)>,
    heroes: Seq<Seq<Card>>,
    villains: Seq<Seq<Card>>,
    board: Seq<Card>,
    mode: EvalMode,
    hi_lo: bool,
    game: Game,
) -> bool {
    &&& out.len() == pairs.len()
    &&& forall|k: int|
        0 <= k < out.len() ==> {
            &&& (#[trigger] out[k]).hero == pairs[k].0
            &&& out[k].villain == pairs[k].1
            &&& hand_vs_hand_result(out[k].tally, heroes[pairs[k].0], villains[pairs[k].1], board, mode, hi_lo, game)
        }
}

/// The matchups of one hero hand (position 0) against a villain range.
pub open spec fn hand_pairs(hero: Seq<Card>, villains: Seq<Seq<Card>>, board: Seq<Card>) -> Seq<(int, int)> {
    kept_villains(hero, villains, board, villains.len() as int).map_values(|j: int| (0int, j))
}

// ---------------------------------------------------------------------------
// Lemmas
// ---------------------------------------------------------------------------

proof fn lemma_omaha_rank(hand: Seq<Card>, board: Seq<Card>, r: HandRank)
    requires
        is_best_omaha(hand, board, r),
    ensures
        r == omaha_rank(hand, board),
{
    let c = omaha_rank(hand, board);
    assert(is_best_omaha(hand, board, c));
    law_best_omaha_unique(hand, board, r, c);
}

proof fn lemma_holdem_rank(hand: Seq<Card>, board: Seq<Card>, r: HandRank)
    requires
        is_best_holdem(hand, board, r),
    ensures
        r == holdem_rank(hand, board),
{
    let c = holdem_rank(hand, board);
    assert(is_best_holdem(hand, board, c));
    law_best_holdem_unique(hand, board, r, c);
}

proof fn lemma_omaha_low(hand: Seq<Card>, board: Seq<Card>, r: Option<Seq<Rank>>)
    requires
        is_best_omaha_low(hand, board, r),
    ensures
        r == omaha_low(hand, board),
{
    let c = omaha_low(hand, board);
    assert(is_best_omaha_low(hand, board, c));
    law_best_omaha_low_unique(hand, board, r, c);
}

proof fn lemma_counts_push(hero: Seq<Card>, villain: Seq<Card>, boards: Seq<Seq<Card>>, full: Seq<Card>, game: Game)
    ensures
        forall|v: int|
            #[trigger] hi_count(hero, villain, boards.push(full), game, v) == hi_count(hero, villain, boards, game, v)
                + if hi_result(hero, villain, full, game) == v {
                1nat
            } else {
                0nat
            },
        forall|v: int|
            #[trigger] low_count(hero, villain, boards.push(full), v) == low_count(hero, villain, boards, v)
                + if low_result(hero, villain, full) == v {
                1nat
            } else {
                0nat
            },
{
    assert(boards.push(full).drop_last() == boards);
}

proof fn lemma_counts_bounded(hero: Seq<Card>, villain: Seq<Card>, boards: Seq<Seq<Card>>, game: Game)
    ensures
        hi_count(hero, villain, boards, game, 1) + hi_count(hero, villain, boards, game, 0) + hi_count(
            hero,
            villain,
            boards,
            game,
            -1,
        ) == boards.len(),
        low_count(hero, villain, boards, 1) + low_count(hero, villain, boards, 0) + low_count(
            hero,
            villain,
            boards,
            -1,
        ) <= boards.len(),
    decreases boards.len(),
{
    if boards.len() > 0 {
        lemma_counts_bounded(hero, villain, boards.drop_last(), game);
    }
}

/// The unshuffled deck holds each card exactly once.
pub proof fn law_deck_distinct()
    ensures
        deck_seq().no_duplicates(),
        forall|c: Card| #[trigger] deck_seq().contains(c),
{
    assert forall|i: int, j: int| 0 <= i < 52 && 0 <= j < 52 && i != j implies deck_seq()[i] != deck_seq()[j] by {
        law_card_index_roundtrip(deck_seq()[i], i);
        law_card_index_roundtrip(deck_seq()[j], j);
    }
    assert forall|c: Card| #[trigger] deck_seq().contains(c) by {
        law_card_index_roundtrip(c, 0);
        assert(deck_seq()[card_index(c)] == c);
    }
}

// ---------------------------------------------------------------------------
// Executable pieces
// ---------------------------------------------------------------------------

/// Whether `v` holds `c`.
pub fn contains_card(v: &Vec<Card>, c: Card) -> (b: bool)
    ensures
        b == v@.contains(c),
{
    let mut i: usize = 0;
    while i < v.len()
        invariant
            i <= v@.len(),
            forall|k: int| 0 <= k < i ==> v@[k] != c,
        decreases v@.len() - i,
    {
        if v[i] == c {
            return true;
        }
        i = i + 1;
    }
    false
}

/// The cards neither player holds and the board does not show, in deck order.
pub fn live_cards(hero: &Hand, villain: &Hand, board: &Board) -> (deck: Vec<Card>)
    ensures
        deck@ == live_deck(hero.0@, villain.0@, board.0@),
        deck@.no_duplicates(),
        deck@.len() <= 52,
{
    let all = full_deck();
    let ghost pred = |c: Card| is_live(hero.0@, villain.0@, board.0@, c);
    let mut deck: Vec<Card> = Vec::new();
    let mut i: usize = 0;
    while i < 52
        invariant
            i <= 52,
            all@ == deck_seq(),
            pred == (|c: Card| is_live(hero.0@, villain.0@, board.0@, c)),
            deck@ == deck_seq().take(i as int).filter(pred),
            deck@.no_duplicates(),
            deck@.len() <= i,
            forall|k: int| 0 <= k < deck@.len() ==> 0 <= #[trigger] card_index(deck@[k]) < i,
        decreases 52 - i,
    {
        let c = all[i];
        proof {
            law_card_index_roundtrip(c, i as int);
            assert(deck_seq().take(i + 1) == deck_seq().take(i as int).push(c));
            deck_seq().take(i as int).lemma_filter_push(c, pred);
        }
        if !contains_card(&hero.0, c) && !contains_card(&villain.0, c) && !contains_card(&board.0, c) {
            deck.push(c);
        }
        i = i + 1;
    }
    assert(deck_seq().take(52) == deck_seq());
    deck
}

/// `board` followed by `extra`.
fn joined(board: &Vec<Card>, extra: &Vec<Card>) -> (full: Vec<Card>)
    ensures
        full@ == board@ + extra@,
{
    let mut full: Vec<Card> = Vec::new();
    let mut i: usize = 0;
    while i < board.len()
        invariant
            i <= board@.len(),
            full@ == board@.take(i as int),
        decreases board@.len() - i,
    {
        full.push(board[i]);
        assert(board@.take(i + 1) == board@.take(i as int).push(board@[i as int]));
        i = i + 1;
    }
    let mut j: usize = 0;
    while j < extra.len()
        invariant
            j <= extra@.len(),
            full@ == board@ + extra@.take(j as int),
        decreases extra@.len() - j,
    {
        full.push(extra[j]);
        assert(extra@.take(j + 1) == extra@.take(j as int).push(extra@[j as int]));
        j = j + 1;
    }
    assert(board@.take(board@.len() as int) == board@);
    assert(extra@.take(extra@.len() as int) == extra@);
    full
}

/// The high hand of `hand` on the full board `full` in the given game.
fn rank_in_game(hand: &Hand, full: &Vec<Card>, game: Game) -> (r: HandRank)
    requires
        full@.len() == 5,
        hand.0@.len() == game_arity(game),
    ensures
        r == player_rank(hand.0@, full@, game),
{
    match game {
        Game::Omaha => {
            let r = evaluate_omaha_hand(hand, full.as_slice());
            proof {
                lemma_omaha_rank(hand.0@, full@, r);
            }
            r
        },
        Game::HoldEm => {
            let r = evaluate_holdem_hand(hand, full.as_slice());
            proof {
                lemma_holdem_rank(hand.0@, full@, r);
            }
            r
        },
    }
}

/// Counts one showdown on the full board `full` into `t`.
fn record_board(t: &mut EquityTally, hero: &Hand, villain: &Hand, full: &Vec<Card>, hi_lo: bool, game: Game)
    requires
        full@.len() == 5,
        hero.0@.len() == game_arity(game),
        villain.0@.len() == game_arity(game),
        !(hi_lo && game == Game::HoldEm),
        old(t).trial_count < u64::MAX,
        old(t).hero_wins + old(t).ties + old(t).villain_wins == old(t).trial_count,
        old(t).low_count == old(t).hero_wins_low + old(t).ties_low + old(t).villain_wins_low,
        old(t).low_count <= old(t).trial_count,
    ensures
        final(t).trial_count == old(t).trial_count + 1,
        final(t).mode == old(t).mode,
        final(t).hi_lo == old(t).hi_lo,
        final(t).hero_wins == old(t).hero_wins + if hi_result(hero.0@, villain.0@, full@, game) == 1 { 1int } else { 0int },
        final(t).ties == old(t).ties + if hi_result(hero.0@, villain.0@, full@, game) == 0 { 1int } else { 0int },
        final(t).villain_wins == old(t).villain_wins + if hi_result(hero.0@, villain.0@, full@, game) == -1 { 1int } else { 0int },
        final(t).hero_wins_low == old(t).hero_wins_low + if hi_lo && low_result(hero.0@, villain.0@, full@) == 1 { 1int } else { 0int },
        final(t).ties_low == old(t).ties_low + if hi_lo && low_result(hero.0@, villain.0@, full@) == 0 { 1int } else { 0int },
        final(t).villain_wins_low == old(t).villain_wins_low + if hi_lo && low_result(hero.0@, villain.0@, full@) == -1 { 1int } else { 0int },
        final(t).low_count == final(t).hero_wins_low + final(t).ties_low + final(t).villain_wins_low,
{
    let hr = rank_in_game(hero, full, game);
    let vr = rank_in_game(villain, full, game);
    let hs = hand_rank_to_score(hr);
    let vs = hand_rank_to_score(vr);
    if hs > vs {
        t.hero_wins = t.hero_wins + 1;
    } else if hs < vs {
        t.villain_wins = t.villain_wins + 1;
    } else {
        t.ties = t.ties + 1;
    }
    t.trial_count = t.trial_count + 1;
    if hi_lo {
        let hl = evaluate_omaha_hand_low(hero, full.as_slice());
        let vl = evaluate_omaha_hand_low(villain, full.as_slice());
        proof {
            lemma_omaha_low(hero.0@, full@, low_view(hl));
            lemma_omaha_low(villain.0@, full@, low_view(vl));
        }
        match (hl, vl) {
            (Some(h), Some(v)) => {
                if low_beats(&h, &v) {
                    t.hero_wins_low = t.hero_wins_low + 1;
                } else if low_beats(&v, &h) {
                    t.villain_wins_low = t.villain_wins_low + 1;
                } else {
                    t.ties_low = t.ties_low + 1;
                }
                t.low_count = t.low_count + 1;
            },
            (Some(_), None) => {
                t.hero_wins_low = t.hero_wins_low + 1;
                t.low_count = t.low_count + 1;
            },
            (None, Some(_)) => {
                t.villain_wins_low = t.villain_wins_low + 1;
                t.low_count = t.low_count + 1;
            },
            (None, None) => {},
        }
    }
}

/// An empty tally for the given mode.
fn empty_tally(mode: EvalMode, hi_lo: bool) -> (t: EquityTally)
    ensures
        t.mode == mode,
        t.hi_lo == hi_lo,
        t.trial_count == 0,
        t.hero_wins == 0 && t.ties == 0 && t.villain_wins == 0,
        t.hero_wins_low == 0 && t.ties_low == 0 && t.villain_wins_low == 0 && t.low_count == 0,
{
    EquityTally {
        hero_wins: 0,
        ties: 0,
        villain_wins: 0,
        hero_wins_low: 0,
        ties_low: 0,
        villain_wins_low: 0,
        low_count: 0,
        trial_count: 0,
        mode,
        hi_lo,
    }
}

/// Counts the showdowns on every completion of `board` from `deck`.
fn exhaustive_tally(hero: &Hand, villain: &Hand, board: &Board, deck: &Vec<Card>, hi_lo: bool, game: Game) -> (t: EquityTally)
    requires
        3 <= board.0@.len() <= 5,
        deck@.len() <= 52,
        hero.0@.len() == game_arity(game),
        villain.0@.len() == game_arity(game),
        !(hi_lo && game == Game::HoldEm),
    ensures
        t.mode == EvalMode::Exhaustive,
        t.hi_lo == hi_lo,
        tally_matches(t, hero.0@, villain.0@, exhaustive_boards(board.0@, deck@), hi_lo, game),
{
    let ghost h = hero.0@;
    let ghost v = villain.0@;
    let ghost b = board.0@;
    let ghost d = deck@;
    let mut t = empty_tally(EvalMode::Exhaustive, hi_lo);
    let bl = board.0.len();
    let n = deck.len();
    if bl == 5 {
        let none: Vec<Card> = Vec::new();
        let full = joined(&board.0, &none);
        assert(full@ =~= b);
        proof {
            lemma_counts_push(h, v, Seq::empty(), full@, game);
        }
        record_board(&mut t, hero, villain, &full, hi_lo, game);
        assert(exhaustive_boards(b, d) =~= Seq::<Seq<Card>>::empty().push(full@));
    } else if bl == 4 {
        let ghost mut dealt: Seq<Seq<Card>> = Seq::empty();
        let mut i: usize = 0;
        while i < n
            invariant
                h == hero.0@ && v == villain.0@ && b == board.0@ && d == deck@,
                b.len() == 4,
                n == d.len(),
                n <= 52,
                i <= n,
                hero.0@.len() == game_arity(game),
                villain.0@.len() == game_arity(game),
                !(hi_lo && game == Game::HoldEm),
                t.mode == EvalMode::Exhaustive,
                t.hi_lo == hi_lo,
                dealt == exhaustive_boards(b, d).take(i as int),
                tally_matches(t, h, v, dealt, hi_lo, game),
            decreases n - i,
        {
            let extra = vec![deck[i]];
            let full = joined(&board.0, &extra);
            proof {
                lemma_counts_push(h, v, dealt, full@, game);
                lemma_counts_bounded(h, v, dealt, game);
            }
            record_board(&mut t, hero, villain, &full, hi_lo, game);
            proof {
                assert(full@ =~= b.push(d[i as int]));
                assert(exhaustive_boards(b, d).take(i + 1) =~= dealt.push(full@));
                dealt = dealt.push(full@);
            }
            i = i + 1;
        }
        assert(exhaustive_boards(b, d).take(n as int) =~= exhaustive_boards(b, d));
    } else {
        let ghost mut dealt: Seq<Seq<Card>> = Seq::empty();
        let mut i: usize = 0;
        while i < n
            invariant
                h == hero.0@ && v == villain.0@ && b == board.0@ && d == deck@,
                b.len() == 3,
                n == d.len(),
                n <= 52,
                i <= n,
                hero.0@.len() == game_arity(game),
                villain.0@.len() == game_arity(game),
                !(hi_lo && game == Game::HoldEm),
                t.mode == EvalMode::Exhaustive,
                t.hi_lo == hi_lo,
                dealt == pair_boards(b, d, i as int),
                dealt.len() <= i * n,
                tally_matches(t, h, v, dealt, hi_lo, game),
            decreases n - i,
        {
            let mut j: usize = i + 1;
            while j < n
                invariant
                    h == hero.0@ && v == villain.0@ && b == board.0@ && d == deck@,
                    b.len() == 3,
                    n == d.len(),
                    n <= 52,
                    i < n,
                    i < j <= n,
                    hero.0@.len() == game_arity(game),
                    villain.0@.len() == game_arity(game),
                    !(hi_lo && game == Game::HoldEm),
                    t.mode == EvalMode::Exhaustive,
                    t.hi_lo == hi_lo,
                    dealt == pair_boards(b, d, i as int) + pair_row(b, d, i as int).take(j - i - 1),
                    dealt.len() <= i * n + j,
                    tally_matches(t, h, v, dealt, hi_lo, game),
                decreases n - j,
            {
                let extra = vec![deck[i], deck[j]];
                let full = joined(&board.0, &extra);
                proof {
                    lemma_counts_push(h, v, dealt, full@, game);
                    lemma_counts_bounded(h, v, dealt, game);
                    assert(i * n + j <= 52 * 52) by (nonlinear_arith)
                        requires
                            i < n,
                            j <= n,
                            n <= 52,
                    ;
                }
                record_board(&mut t, hero, villain, &full, hi_lo, game);
                proof {
                    assert(full@ =~= b.push(d[i as int]).push(d[j as int]));
                    let row = pair_row(b, d, i as int);
                    assert(row[j - i - 1] == full@);
                    assert(row.take(j - i) =~= row.take(j - i - 1).push(full@));
                    assert(pair_boards(b, d, i as int) + row.take(j - i) =~= dealt.push(full@));
                    dealt = dealt.push(full@);
                    assert(i * n + j + 1 <= i * n + (j + 1));
                }
                j = j + 1;
            }
            proof {
                let row = pair_row(b, d, i as int);
                assert(row.take(n - i - 1) =~= row);
                assert(pair_boards(b, d, i + 1) == pair_boards(b, d, i as int) + row);
                assert(i * n + n == (i + 1) * n) by (nonlinear_arith);
            }
            i = i + 1;
        }
    }
    t
}

/// Cards that hold the same multiset as a duplicate-free sequence are
/// themselves duplicate-free and hold only its cards.
pub proof fn lemma_same_cards_distinct(a: Seq<Card>, b: Seq<Card>)
    requires
        a.to_multiset() == b.to_multiset(),
        a.no_duplicates(),
    ensures
        b.no_duplicates(),
        forall|x: Card| b.contains(x) ==> a.contains(x),
{
    a.lemma_multiset_has_no_duplicates();
    assert forall|x: Card| b.to_multiset().contains(x) implies b.to_multiset().count(x) == 1 by {
        assert(a.to_multiset().contains(x));
    }
    b.lemma_multiset_has_no_duplicates_conv();
    assert forall|x: Card| b.contains(x) implies a.contains(x) by {
        assert(b.to_multiset().count(x) > 0);
        assert(a.to_multiset().count(x) > 0);
    }
}

/// Counts the showdowns on `samples` completions of `board`, each dealt from
/// the next shuffle of `deck` by one generator seeded with `seed`.
fn monte_carlo_tally(
    hero: &Hand,
    villain: &Hand,
    board: &Board,
    deck: Vec<Card>,
    samples: u64,
    seed: u64,
    hi_lo: bool,
    game: Game,
) -> (t: EquityTally)
    requires
        board.0@.len() <= 5,
        deck@.len() + board.0@.len() >= 5,
        deck@.no_duplicates(),
        hero.0@.len() == game_arity(game),
        villain.0@.len() == game_arity(game),
        !(hi_lo && game == Game::HoldEm),
    ensures
        t.mode == (EvalMode::MonteCarlo { samples, seed }),
        t.hi_lo == hi_lo,
        tally_matches(t, hero.0@, villain.0@, seeded_boards(board.0@, deck@, seed, samples as nat), hi_lo, game),
        forall|k: int|
            0 <= k < samples ==> is_completion(
                board.0@,
                deck@,
                #[trigger] seeded_boards(board.0@, deck@, seed, samples as nat)[k],
            ),
{
    let ghost h = hero.0@;
    let ghost v = villain.0@;
    let ghost b = board.0@;
    let ghost live = deck@;
    let mut cards = deck;
    let mut gen = DeckShuffler::seeded(seed, &cards);
    let mut t = empty_tally(EvalMode::MonteCarlo { samples, seed }, hi_lo);
    let bl = board.0.len();
    let remaining = 5 - bl;
    let ghost mut dealt: Seq<Seq<Card>> = Seq::empty();
    let mut k: u64 = 0;
    while k < samples
        invariant
            h == hero.0@ && v == villain.0@ && b == board.0@,
            bl == b.len(),
            remaining == 5 - bl,
            bl <= 5,
            k <= samples,
            live.no_duplicates(),
            cards@.to_multiset() == live.to_multiset(),
            cards@.len() == live.len(),
            live.len() >= remaining,
            gen.seed() == Some(seed),
            gen.start() == live,
            gen.done() == k,
            gen.last() == cards@,
            hero.0@.len() == game_arity(game),
            villain.0@.len() == game_arity(game),
            !(hi_lo && game == Game::HoldEm),
            t.mode == (EvalMode::MonteCarlo { samples, seed }),
            t.hi_lo == hi_lo,
            dealt == seeded_boards(b, live, seed, k as nat),
            forall|i: int| 0 <= i < dealt.len() ==> is_completion(b, live, #[trigger] dealt[i]),
            tally_matches(t, h, v, dealt, hi_lo, game),
        decreases samples - k,
    {
        gen.shuffle(&mut cards);
        let mut extra: Vec<Card> = Vec::new();
        let mut r: usize = 0;
        while r < remaining
            invariant
                r <= remaining,
                remaining <= cards@.len(),
                extra@ == cards@.take(r as int),
            decreases remaining - r,
        {
            extra.push(cards[r]);
            assert(cards@.take(r + 1) == cards@.take(r as int).push(cards@[r as int]));
            r = r + 1;
        }
        let full = joined(&board.0, &extra);
        proof {
            lemma_same_cards_distinct(live, cards@);
            let tail = cards@.take(remaining as int);
            assert(full@.take(bl as int) =~= b);
            assert(full@.skip(bl as int) =~= tail);
            assert forall|x: Card| full@.skip(bl as int).contains(x) implies live.contains(x) by {
                let i = choose|i: int| 0 <= i < tail.len() && tail[i] == x;
                assert(cards@.contains(cards@[i]));
            }
            assert(tail.no_duplicates()) by {
                assert forall|i: int, j: int| 0 <= i < tail.len() && 0 <= j < tail.len() && i != j implies tail[i] != tail[j] by {
                    assert(tail[i] == cards@[i] && tail[j] == cards@[j]);
                }
            }
            assert(is_completion(b, live, full@));
            assert(cards@ == seeded_deck(live, seed, (k + 1) as nat));
            lemma_counts_push(h, v, dealt, full@, game);
            lemma_counts_bounded(h, v, dealt, game);
        }
        record_board(&mut t, hero, villain, &full, hi_lo, game);
        proof {
            dealt = dealt.push(full@);
            assert(dealt =~= seeded_boards(b, live, seed, (k + 1) as nat));
        }
        k = k + 1;
    }
    t
}

/// The mode a request on a board of `board_len` cards is carried out in:
/// `Auto` and `Exhaustive` enumerate from the flop on and otherwise sample
/// 10,000 boards with seed 42.
pub fn resolve_mode(mode: EvalMode, board_len: usize) -> (m: EvalMode)
    ensures
        m == resolved_mode(mode, board_len as int),
{
    match mode {
        EvalMode::MonteCarlo { samples, seed } => EvalMode::MonteCarlo { samples, seed },
        _ => if board_len >= 3 {
            EvalMode::Exhaustive
        } else {
            EvalMode::MonteCarlo { samples: 10000, seed: 42 }
        },
    }
}

/// Equity of `hero` against `villain` on `board`, as exact counts.
///
/// - `Exhaustive`, or `Auto`, with at least three board cards: every
///   completion of the board from the cards neither player holds.
/// - `MonteCarlo { samples, seed }`: `samples` completions, the `k`-th taken
///   from the top of those cards after their `k`-th shuffle by one generator
///   seeded with `seed` ([`seeded_boards`]), so equal requests give equal
///   counts.
/// - `Auto` or `Exhaustive` with fewer than three board cards:
///   `MonteCarlo { samples: 10000, seed: 42 }`.
///
/// Both hands must have the game's number of cards (four for Omaha, two
/// for Hold'em). With `hi_lo` (Omaha only) the low half is counted too.
pub fn evaluate_hand_vs_hand(hero: Hand, villain: Hand, board: Board, mode: EvalMode, hi_lo: bool, game: Game) -> (t: EquityTally)
    requires
        board.0@.len() <= 5,
        !(hi_lo && game == Game::HoldEm),
        hero.0@.len() == game_arity(game),
        villain.0@.len() == game_arity(game),
        can_complete(hero.0@, villain.0@, board.0@, mode),
    ensures
        hand_vs_hand_result(t, hero.0@, villain.0@, board.0@, mode, hi_lo, game),
{
    let deck = live_cards(&hero, &villain, &board);
    let exhaustive = match mode {
        EvalMode::Exhaustive | EvalMode::Auto => board.0.len() >= 3,
        EvalMode::MonteCarlo { .. } => false,
    };
    if exhaustive {
        exhaustive_tally(&hero, &villain, &board, &deck, hi_lo, game)
    } else {
        match mode {
            EvalMode::MonteCarlo { samples, seed } => monte_carlo_tally(
                &hero,
                &villain,
                &board,
                deck,
                samples,
                seed,
                hi_lo,
                game,
            ),
            _ => monte_carlo_tally(&hero, &villain, &board, deck, 10000, 42, hi_lo, game),
        }
    }
}


/// A copy of `cards`.
fn copy_cards(cards: &Vec<Card>) -> (out: Vec<Card>)
    ensures
        out@ == cards@,
{
    let mut out: Vec<Card> = Vec::new();
    let mut i: usize = 0;
    while i < cards.len()
        invariant
            i <= cards@.len(),
            out@ == cards@.take(i as int),
        decreases cards@.len() - i,
    {
        out.push(cards[i]);
        assert(cards@.take(i + 1) == cards@.take(i as int).push(cards@[i as int]));
        i = i + 1;
    }
    assert(cards@.take(cards@.len() as int) == cards@);
    out
}

/// Whether some card of `h` is among `cards`.
pub fn shares_card_exec(h: &Vec<Card>, cards: &Vec<Card>) -> (b: bool)
    ensures
        b == shares_card(h@, cards@),
{
    let mut i: usize = 0;
    while i < h.len()
        invariant
            i <= h@.len(),
            forall|k: int| 0 <= k < i ==> !cards@.contains(#[trigger] h@[k]),
        decreases h@.len() - i,
    {
        if contains_card(cards, h[i]) {
            return true;
        }
        i = i + 1;
    }
    false
}

/// Appends the matchups of hero hand `i` against every villain hand that
/// shares no card with it or the board.
fn push_villain_matchups(
    out: &mut Vec<Matchup>,
    i: usize,
    hero: &Hand,
    villains: &Vec<Hand>,
    board: &Board,
    mode: EvalMode,
    hi_lo: bool,
    game: Game,
    Ghost(heroes): Ghost<Seq<Seq<Card>>>,
    Ghost(pairs): Ghost<Seq<(int, int)>>,
)
    requires
        board.0@.len() <= 5,
        !(hi_lo && game == Game::HoldEm),
        0 <= i < heroes.len(),
        heroes[i as int] == hero.0@,
        villains_ready(hero.0@, hands_view(villains@), board.0@, mode, game),
        matchups_match(old(out)@, pairs, heroes, hands_view(villains@), board.0@, mode, hi_lo, game),
    ensures
        matchups_match(
            final(out)@,
            pairs + kept_villains(hero.0@, hands_view(villains@), board.0@, villains@.len() as int).map_values(
                |j: int| (i as int, j),
            ),
            heroes,
            hands_view(villains@),
            board.0@,
            mode,
            hi_lo,
            game,
        ),
{
    let ghost vs = hands_view(villains@);
    let ghost b = board.0@;
    let n = villains.len();
    let mut j: usize = 0;
    assert(pairs + kept_villains(hero.0@, vs, b, 0).map_values(|jj: int| (i as int, jj)) =~= pairs);
    while j < n
        invariant
            n == villains@.len(),
            vs == hands_view(villains@),
            b == board.0@,
            j <= n,
            board.0@.len() <= 5,
            !(hi_lo && game == Game::HoldEm),
            0 <= i < heroes.len(),
            heroes[i as int] == hero.0@,
            villains_ready(hero.0@, vs, b, mode, game),
            matchups_match(
                out@,
                pairs + kept_villains(hero.0@, vs, b, j as int).map_values(|jj: int| (i as int, jj)),
                heroes,
                vs,
                b,
                mode,
                hi_lo,
                game,
            ),
        decreases n - j,
    {
        let ghost before = pairs + kept_villains(hero.0@, vs, b, j as int).map_values(|jj: int| (i as int, jj));
        let vh = &villains[j];
        if !shares_card_exec(&vh.0, &hero.0) && !shares_card_exec(&vh.0, &board.0) {
            proof {
                assert(vs[j as int] == vh.0@);
                assert(pair_ready(hero.0@, vs[j as int], b, mode, game));
            }
            let t = evaluate_hand_vs_hand(
                Hand(copy_cards(&hero.0)),
                Hand(copy_cards(&vh.0)),
                Board(copy_cards(&board.0)),
                mode,
                hi_lo,
                game,
            );
            let ghost old_out = out@;
            out.push(Matchup { hero: i, villain: j, tally: t });
            proof {
                let after = pairs + kept_villains(hero.0@, vs, b, j + 1).map_values(|jj: int| (i as int, jj));
                assert(after =~= before.push((i as int, j as int)));
                assert(out@ == old_out.push(Matchup { hero: i, villain: j, tally: t }));
                assert forall|k: int| 0 <= k < out@.len() implies {
                    &&& (#[trigger] out@[k]).hero == after[k].0
                    &&& out@[k].villain == after[k].1
                    &&& hand_vs_hand_result(out@[k].tally, heroes[after[k].0], vs[after[k].1], b, mode, hi_lo, game)
                } by {
                    if k < old_out.len() {
                        assert(out@[k] == old_out[k]);
                        assert(after[k] == before[k]);
                    }
                }
            }
        } else {
            proof {
                let after = pairs + kept_villains(hero.0@, vs, b, j + 1).map_values(|jj: int| (i as int, jj));
                assert(vs[j as int] == vh.0@);
                assert(after =~= before);
            }
        }
        j = j + 1;
    }
}

/// Counts of `hero` against every villain hand that shares no card with it
/// or the board, in range order (the hero's hand is position 0). Weighting
/// the counts into one equity is the caller's.
pub fn evaluate_hand_vs_range(hero: Hand, villain_range: Range, board: Board, mode: EvalMode, hi_lo: bool, game: Game) -> (out: Vec<Matchup>)
    requires
        board.0@.len() <= 5,
        !(hi_lo && game == Game::HoldEm),
        villains_ready(hero.0@, hands_view(villain_range.hands@), board.0@, mode, game),
    ensures
        matchups_match(
            out@,
            hand_pairs(hero.0@, hands_view(villain_range.hands@), board.0@),
            seq![hero.0@],
            hands_view(villain_range.hands@),
            board.0@,
            mode,
            hi_lo,
            game,
        ),
{
    let ghost heroes = seq![hero.0@];
    let ghost none: Seq<(int, int)> = Seq::empty();
    let mut out: Vec<Matchup> = Vec::new();
    push_villain_matchups(
        &mut out,
        0,
        &hero,
        &villain_range.hands,
        &board,
        mode,
        hi_lo,
        game,
        Ghost(heroes),
        Ghost(none),
    );
    assert(Seq::<(int, int)>::empty() + hand_pairs(hero.0@, hands_view(villain_range.hands@), board.0@)
        =~= hand_pairs(hero.0@, hands_view(villain_range.hands@), board.0@));
    out
}

/// Counts of every hero hand that misses the board against every villain
/// hand that shares no card with it or the board, hero by hero in range
/// order. Weighting the counts into one equity is the caller's.
pub fn evaluate_range_vs_range_internal(
    hero_range: Range,
    villain_range: Range,
    board: Board,
    mode: EvalMode,
    hi_lo: bool,
    game: Game,
) -> (out: Vec<Matchup>)
    requires
        board.0@.len() <= 5,
        !(hi_lo && game == Game::HoldEm),
        range_ready(hands_view(hero_range.hands@), hands_view(villain_range.hands@), board.0@, mode, game),
    ensures
        matchups_match(
            out@,
            range_pairs(
                hands_view(hero_range.hands@),
                hands_view(villain_range.hands@),
                board.0@,
                hero_range.hands@.len() as int,
            ),
            hands_view(hero_range.hands@),
            hands_view(villain_range.hands@),
            board.0@,
            mode,
            hi_lo,
            game,
        ),
{
    let ghost hs = hands_view(hero_range.hands@);
    let ghost vs = hands_view(villain_range.hands@);
    let ghost b = board.0@;
    let mut out: Vec<Matchup> = Vec::new();
    let n = hero_range.hands.len();
    let mut i: usize = 0;
    while i < n
        invariant
            n == hero_range.hands@.len(),
            hs == hands_view(hero_range.hands@),
            vs == hands_view(villain_range.hands@),
            b == board.0@,
            i <= n,
            board.0@.len() <= 5,
            !(hi_lo && game == Game::HoldEm),
            range_ready(hs, vs, b, mode, game),
            matchups_match(out@, range_pairs(hs, vs, b, i as int), hs, vs, b, mode, hi_lo, game),
        decreases n - i,
    {
        let hh = &hero_range.hands[i];
        assert(hs[i as int] == hh.0@);
        if !shares_card_exec(&hh.0, &board.0) {
            push_villain_matchups(
                &mut out,
                i,
                hh,
                &villain_range.hands,
                &board,
                mode,
                hi_lo,
                game,
                Ghost(hs),
                Ghost(range_pairs(hs, vs, b, i as int)),
            );
        } else {
            assert(range_pairs(hs, vs, b, i + 1) =~= range_pairs(hs, vs, b, i as int));
        }
        i = i + 1;
    }
    out
}


// ---------------------------------------------------------------------------
// Laws
// ---------------------------------------------------------------------------

/// Every trial is a hero win, a tie or a villain win; the low half is
/// counted only with `hi_lo`, over at most all trials.
pub proof fn law_tally_totals(
    t: EquityTally,
    hero: Seq<Card>,
    villain: Seq<Card>,
    board: Seq<Card>,
    mode: EvalMode,
    hi_lo: bool,
    game: Game,
)
    requires
        hand_vs_hand_result(t, hero, villain, board, mode, hi_lo, game),
    ensures
        t.hero_wins + t.ties + t.villain_wins == t.trial_count,
        t.hero_wins_low + t.ties_low + t.villain_wins_low == t.low_count,
        t.low_count <= t.trial_count,
        !hi_lo ==> t.low_count == 0,
        t.mode is MonteCarlo ==> t.trial_count == t.mode->samples,
{
    let deck = live_deck(hero, villain, board);
    if t.mode is Exhaustive {
        lemma_counts_bounded(hero, villain, exhaustive_boards(board, deck), game);
    } else {
        lemma_counts_bounded(hero, villain, seeded_boards(board, deck, t.mode->seed, t.mode->samples as nat), game);
    }
}

proof fn lemma_pair_boards_len(board: Seq<Card>, deck: Seq<Card>, m: int)
    requires
        0 <= m <= deck.len(),
    ensures
        2 * pair_boards(board, deck, m).len() == m * (2 * deck.len() - m - 1),
    decreases m,
{
    if m > 0 {
        lemma_pair_boards_len(board, deck, m - 1);
        assert(2 * pair_boards(board, deck, m).len() == (m - 1) * (2 * deck.len() - (m - 1) - 1) + 2 * (deck.len() - (m - 1) - 1));
        assert((m - 1) * (2 * deck.len() - (m - 1) - 1) + 2 * (deck.len() - (m - 1) - 1) == m * (2 * deck.len() - m - 1)) by (nonlinear_arith);
    } else {
        assert(m * (2 * deck.len() - m - 1) == 0) by (nonlinear_arith)
            requires
                m == 0,
        ;
    }
}

/// An exhaustive count runs over every completion of the board once: one
/// trial on the river, one per live card on the turn, one per pair of live
/// cards on the flop.
pub proof fn law_exhaustive_trials(
    t: EquityTally,
    hero: Seq<Card>,
    villain: Seq<Card>,
    board: Seq<Card>,
    mode: EvalMode,
    hi_lo: bool,
    game: Game,
)
    requires
        hand_vs_hand_result(t, hero, villain, board, mode, hi_lo, game),
        t.mode is Exhaustive,
    ensures
        ({
            let n = live_deck(hero, villain, board).len();
            &&& board.len() >= 5 ==> t.trial_count == 1
            &&& board.len() == 4 ==> t.trial_count == n
            &&& board.len() == 3 ==> 2 * t.trial_count == n * (n - 1)
        }),
{
    let deck = live_deck(hero, villain, board);
    if board.len() == 3 {
        lemma_pair_boards_len(board, deck, deck.len() as int);
        assert(deck.len() * (2 * deck.len() - deck.len() - 1) == deck.len() * (deck.len() - 1));
    }
}

/// On a full board counted exhaustively: the hero wins the high half
/// exactly when the hero's best hand beats the villain's, the villain wins
/// it in the mirror case, and it is a tie otherwise.
pub proof fn law_river_high_split(
    t: EquityTally,
    hero: Seq<Card>,
    villain: Seq<Card>,
    board: Seq<Card>,
    mode: EvalMode,
    hi_lo: bool,
    game: Game,
)
    requires
        hand_vs_hand_result(t, hero, villain, board, mode, hi_lo, game),
        t.mode is Exhaustive,
        board.len() == 5,
    ensures
        ({
            let h = player_rank(hero, board, game);
            let v = player_rank(villain, board, game);
            &&& t.trial_count == 1
            &&& t.hero_wins == if beats(h, v) { 1int } else { 0int }
            &&& t.villain_wins == if beats(v, h) { 1int } else { 0int }
            &&& t.ties == if !beats(h, v) && !beats(v, h) { 1int } else { 0int }
        }),
{
    let deck = live_deck(hero, villain, board);
    let boards = exhaustive_boards(board, deck);
    assert(boards =~= seq![board]);
    assert(boards.drop_last() =~= Seq::<Seq<Card>>::empty());
    assert(boards.last() == board);
    assert(hi_count(hero, villain, boards.drop_last(), game, 1) == 0);
    assert(hi_count(hero, villain, boards.drop_last(), game, 0) == 0);
    assert(hi_count(hero, villain, boards.drop_last(), game, -1) == 0);
    lemma_beats_asymmetric(player_rank(hero, board, game), player_rank(villain, board, game));
}

/// On a full board counted exhaustively with the low half: the hero takes
/// the low exactly when the hero makes an eight-or-better low and the
/// villain makes none or a higher one (compared from the highest card down,
/// Ace low); the villain takes it in the mirror case; the low is split when
/// both make the same low; no low is counted when neither makes one.
pub proof fn law_river_low_split(
    t: EquityTally,
    hero: Seq<Card>,
    villain: Seq<Card>,
    board: Seq<Card>,
    mode: EvalMode,
    game: Game,
)
    requires
        hand_vs_hand_result(t, hero, villain, board, mode, true, game),
        t.mode is Exhaustive,
        board.len() == 5,
    ensures
        ({
            let h = omaha_low(hero, board);
            let v = omaha_low(villain, board);
            &&& t.hero_wins_low == if h is Some && (v is None || lex_lt(low_values(h->0), low_values(v->0))) {
                1int
            } else {
                0int
            }
            &&& t.villain_wins_low == if v is Some && (h is None || lex_lt(low_values(v->0), low_values(h->0))) {
                1int
            } else {
                0int
            }
            &&& t.ties_low == if h is Some && v is Some && !lex_lt(low_values(h->0), low_values(v->0))
                && !lex_lt(low_values(v->0), low_values(h->0)) {
                1int
            } else {
                0int
            }
            &&& t.low_count == if h is Some || v is Some {
                1int
            } else {
                0int
            }
        }),
{
    let deck = live_deck(hero, villain, board);
    let boards = exhaustive_boards(board, deck);
    assert(boards =~= seq![board]);
    assert(boards.drop_last() =~= Seq::<Seq<Card>>::empty());
    assert(boards.last() == board);
    assert(low_count(hero, villain, boards.drop_last(), 1) == 0);
    assert(low_count(hero, villain, boards.drop_last(), 0) == 0);
    assert(low_count(hero, villain, boards.drop_last(), -1) == 0);
    let r = low_result(hero, villain, board);
    assert(t.hero_wins_low == if r == 1 { 1int } else { 0int });
    assert(t.ties_low == if r == 0 { 1int } else { 0int });
    assert(t.villain_wins_low == if r == -1 { 1int } else { 0int });
    let h = omaha_low(hero, board);
    let v = omaha_low(villain, board);
    if h is Some && v is Some {
        lemma_lex_asymmetric(low_values(h->0), low_values(v->0));
    }
}

/// Of two different hand ranks at most one beats the other.
proof fn lemma_beats_asymmetric(a: HandRank, b: HandRank)
    ensures
        !(beats(a, b) && beats(b, a)),
{
}

proof fn lemma_lex_asymmetric(x: Seq<int>, y: Seq<int>)
    ensures
        !(lex_lt(x, y) && lex_lt(y, x)),
{
    if lex_lt(x, y) && lex_lt(y, x) {
        let k = choose|k: int| 0 <= k < x.len() && k < y.len() && x.take(k) == y.take(k) && #[trigger] x[k] < y[k];
        let q = choose|q: int| 0 <= q < y.len() && q < x.len() && y.take(q) == x.take(q) && #[trigger] y[q] < x[q];
        if k < q {
            assert(x.take(q)[k] == y.take(q)[k]);
        } else if q < k {
            assert(x.take(k)[q] == y.take(k)[q]);
        }
    }
}

proof fn lemma_counts_swap(hero: Seq<Card>, villain: Seq<Card>, boards: Seq<Seq<Card>>, game: Game)
    ensures
        hi_count(hero, villain, boards, game, 1) == hi_count(villain, hero, boards, game, -1),
        hi_count(hero, villain, boards, game, 0) == hi_count(villain, hero, boards, game, 0),
        hi_count(hero, villain, boards, game, -1) == hi_count(villain, hero, boards, game, 1),
        low_count(hero, villain, boards, 1) == low_count(villain, hero, boards, -1),
        low_count(hero, villain, boards, 0) == low_count(villain, hero, boards, 0),
        low_count(hero, villain, boards, -1) == low_count(villain, hero, boards, 1),
    decreases boards.len(),
{
    if boards.len() > 0 {
        lemma_counts_swap(hero, villain, boards.drop_last(), game);
        let b = boards.last();
        lemma_beats_asymmetric(player_rank(hero, b, game), player_rank(villain, b, game));
        match (omaha_low(hero, b), omaha_low(villain, b)) {
            (Some(h), Some(v)) => {
                lemma_lex_asymmetric(low_values(h), low_values(v));
            },
            _ => {},
        }
    }
}

/// Swapping the players swaps their wins and keeps the ties, high and low,
/// in every mode: both calls count the same boards.
pub proof fn law_hand_vs_hand_symmetric(
    t: EquityTally,
    u: EquityTally,
    hero: Seq<Card>,
    villain: Seq<Card>,
    board: Seq<Card>,
    mode: EvalMode,
    hi_lo: bool,
    game: Game,
)
    requires
        hand_vs_hand_result(t, hero, villain, board, mode, hi_lo, game),
        hand_vs_hand_result(u, villain, hero, board, mode, hi_lo, game),
    ensures
        t.trial_count == u.trial_count,
        t.hero_wins == u.villain_wins,
        t.ties == u.ties,
        t.villain_wins == u.hero_wins,
        t.hero_wins_low == u.villain_wins_low,
        t.ties_low == u.ties_low,
        t.villain_wins_low == u.hero_wins_low,
        t.low_count == u.low_count,
{
    assert(live_deck(hero, villain, board) == live_deck(villain, hero, board)) by {
        let p = |c: Card| is_live(hero, villain, board, c);
        let q = |c: Card| is_live(villain, hero, board, c);
        assert(p =~= q);
    }
    let deck = live_deck(hero, villain, board);
    if t.mode is Exhaustive {
        lemma_counts_swap(hero, villain, exhaustive_boards(board, deck), game);
    } else {
        lemma_counts_swap(hero, villain, seeded_boards(board, deck, t.mode->seed, t.mode->samples as nat), game);
    }
}


proof fn lemma_kept_villains(hero: Seq<Card>, villains: Seq<Seq<Card>>, board: Seq<Card>, m: int)
    requires
        0 <= m <= villains.len(),
    ensures
        ({
            let kept = kept_villains(hero, villains, board, m);
            &&& forall|k: int|
                0 <= k < kept.len() ==> 0 <= #[trigger] kept[k] < m && !shares_card(villains[kept[k]], hero)
                    && !shares_card(villains[kept[k]], board)
            &&& forall|k: int, q: int| 0 <= k < q < kept.len() ==> #[trigger] kept[k] < #[trigger] kept[q]
            &&& forall|j: int|
                0 <= j < m && !shares_card(#[trigger] villains[j], hero) && !shares_card(villains[j], board)
                    ==> kept.contains(j)
        }),
    decreases m,
{
    if m > 0 {
        lemma_kept_villains(hero, villains, board, m - 1);
        let prev = kept_villains(hero, villains, board, m - 1);
        let kept = kept_villains(hero, villains, board, m);
        if !(shares_card(villains[m - 1], hero) || shares_card(villains[m - 1], board)) {
            assert(kept == prev.push(m - 1));
            assert(kept[kept.len() - 1] == m - 1);
            assert forall|j: int|
                0 <= j < m && !shares_card(#[trigger] villains[j], hero) && !shares_card(villains[j], board)
                    implies kept.contains(j) by {
                if j < m - 1 {
                    let k = choose|k: int| 0 <= k < prev.len() && prev[k] == j;
                    assert(kept[k] == j);
                }
            }
        } else {
            assert(kept =~= prev);
        }
    }
}

/// A hero hand plays against a villain range hand exactly when they share
/// no card and neither touches the board: every counted matchup is such a
/// pair, each such pair is counted, and no pair twice (villain hands come
/// in range order).
pub proof fn law_hand_vs_range_matchups(hero: Seq<Card>, villains: Seq<Seq<Card>>, board: Seq<Card>)
    ensures
        ({
            let pairs = hand_pairs(hero, villains, board);
            &&& forall|k: int|
                0 <= k < pairs.len() ==> (#[trigger] pairs[k]).0 == 0 && 0 <= pairs[k].1 < villains.len()
                    && !shares_card(villains[pairs[k].1], hero) && !shares_card(villains[pairs[k].1], board)
            &&& forall|k: int, q: int| 0 <= k < q < pairs.len() ==> (#[trigger] pairs[k]).1 < (#[trigger] pairs[q]).1
            &&& forall|j: int|
                0 <= j < villains.len() && !shares_card(#[trigger] villains[j], hero) && !shares_card(villains[j], board)
                    ==> pairs.contains((0int, j))
        }),
{
    let kept = kept_villains(hero, villains, board, villains.len() as int);
    lemma_kept_villains(hero, villains, board, villains.len() as int);
    let pairs = hand_pairs(hero, villains, board);
    assert forall|j: int|
        0 <= j < villains.len() && !shares_card(#[trigger] villains[j], hero) && !shares_card(villains[j], board)
            implies pairs.contains((0int, j)) by {
        let k = choose|k: int| 0 <= k < kept.len() && kept[k] == j;
        assert(pairs[k] == (0int, j));
    }
    assert forall|k: int, q: int| 0 <= k < q < pairs.len() implies (#[trigger] pairs[k]).1 < (#[trigger] pairs[q]).1 by {
        assert(kept[k] < kept[q]);
    }
}


/// `(i, j)` is a pair of a hero hand that misses the board and a villain
/// hand that shares no card with it or the board.
pub open spec fn playable(heroes: Seq<Seq<Card>>, villains: Seq<Seq<Card>>, board: Seq<Card>, i: int, j: int) -> bool {
    &&& 0 <= i < heroes.len()
    &&& 0 <= j < villains.len()
    &&& !shares_card(heroes[i], board)
    &&& !shares_card(villains[j], heroes[i])
    &&& !shares_card(villains[j], board)
}

/// `(i, j)` comes before `(k, l)`: hero by hero, then villain by villain.
pub open spec fn pair_before(a: (int, int), b: (int, int)) -> bool {
    a.0 < b.0 || (a.0 == b.0 && a.1 < b.1)
}

proof fn lemma_range_pairs(heroes: Seq<Seq<Card>>, villains: Seq<Seq<Card>>, board: Seq<Card>, m: int)
    requires
        0 <= m <= heroes.len(),
    ensures
        ({
            let pairs = range_pairs(heroes, villains, board, m);
            &&& forall|k: int|
                0 <= k < pairs.len() ==> (#[trigger] pairs[k]).0 < m && playable(heroes, villains, board, pairs[k].0, pairs[k].1)
            &&& forall|k: int, q: int| 0 <= k < q < pairs.len() ==> pair_before(#[trigger] pairs[k], #[trigger] pairs[q])
            &&& forall|i: int, j: int| i < m && #[trigger] playable(heroes, villains, board, i, j) ==> pairs.contains((i, j))
        }),
    decreases m,
{
    if m > 0 {
        lemma_range_pairs(heroes, villains, board, m - 1);
        let prev = range_pairs(heroes, villains, board, m - 1);
        let pairs = range_pairs(heroes, villains, board, m);
        let h = heroes[m - 1];
        if shares_card(h, board) {
            assert(pairs =~= prev);
        } else {
            let kept = kept_villains(h, villains, board, villains.len() as int);
            lemma_kept_villains(h, villains, board, villains.len() as int);
            let row = kept.map_values(|j: int| (m - 1, j));
            assert(pairs == prev + row);
            assert forall|k: int| 0 <= k < pairs.len() implies (#[trigger] pairs[k]).0 < m && playable(
                heroes,
                villains,
                board,
                pairs[k].0,
                pairs[k].1,
            ) by {
                if k >= prev.len() {
                    assert(pairs[k] == row[k - prev.len()]);
                    assert(row[k - prev.len()] == (m - 1, kept[k - prev.len()]));
                } else {
                    assert(pairs[k] == prev[k]);
                }
            }
            assert forall|k: int, q: int| 0 <= k < q < pairs.len() implies pair_before(#[trigger] pairs[k], #[trigger] pairs[q]) by {
                if q < prev.len() {
                    assert(pairs[k] == prev[k] && pairs[q] == prev[q]);
                } else if k < prev.len() {
                    assert(pairs[k] == prev[k]);
                    assert(pairs[q] == row[q - prev.len()]);
                } else {
                    assert(pairs[k] == row[k - prev.len()]);
                    assert(pairs[q] == row[q - prev.len()]);
                    assert(kept[k - prev.len()] < kept[q - prev.len()]);
                }
            }
            assert forall|i: int, j: int| i < m && #[trigger] playable(heroes, villains, board, i, j) implies pairs.contains((i, j)) by {
                if i < m - 1 {
                    let k = choose|k: int| 0 <= k < prev.len() && prev[k] == (i, j);
                    assert(pairs[k] == (i, j));
                } else {
                    assert(villains[j] == villains[j]);
                    let k = choose|k: int| 0 <= k < kept.len() && kept[k] == j;
                    assert(pairs[prev.len() + k] == (i, j));
                }
            }
        }
    }
}

/// Range against range counts each playable pair of hands (a hero hand
/// that misses the board against a villain hand that shares no card with
/// it or the board) exactly once, hero by hero and villain by villain, and
/// nothing else.
pub proof fn law_range_vs_range_matchups(heroes: Seq<Seq<Card>>, villains: Seq<Seq<Card>>, board: Seq<Card>)
    ensures
        ({
            let pairs = range_pairs(heroes, villains, board, heroes.len() as int);
            &&& forall|k: int|
                0 <= k < pairs.len() ==> playable(heroes, villains, board, (#[trigger] pairs[k]).0, pairs[k].1)
            &&& forall|k: int, q: int| 0 <= k < q < pairs.len() ==> pair_before(#[trigger] pairs[k], #[trigger] pairs[q])
            &&& forall|i: int, j: int| #[trigger] playable(heroes, villains, board, i, j) ==> pairs.contains((i, j))
        }),
{
    lemma_range_pairs(heroes, villains, board, heroes.len() as int);
}


/// Positions `(i, j)` with `i < j < n`, row by row for `i < m`.
pub open spec fn pair_positions(n: int, m: int) -> Seq<(int, int)>
    decreases m,
{
    if m <= 0 {
        Seq::empty()
    } else {
        pair_positions(n, m - 1) + Seq::new((n - m) as nat, |t: int| (m - 1, m + t))
    }
}

proof fn lemma_pair_positions(n: int, m: int)
    requires
        0 <= m <= n,
    ensures
        ({
            let ps = pair_positions(n, m);
            &&& forall|k: int| 0 <= k < ps.len() ==> 0 <= (#[trigger] ps[k]).0 < ps[k].1 < n && ps[k].0 < m
            &&& forall|k: int, q: int| 0 <= k < q < ps.len() ==> pair_before(#[trigger] ps[k], #[trigger] ps[q])
            &&& forall|a: int, b: int| 0 <= a < b < n && a < m ==> #[trigger] ps.contains((a, b))
        }),
    decreases m,
{
    if m > 0 {
        lemma_pair_positions(n, m - 1);
        let prev = pair_positions(n, m - 1);
        let row = Seq::new((n - m) as nat, |t: int| (m - 1, m + t));
        let ps = pair_positions(n, m);
        assert(ps == prev + row);
        assert forall|k: int| 0 <= k < ps.len() implies 0 <= (#[trigger] ps[k]).0 < ps[k].1 < n && ps[k].0 < m by {
            if k >= prev.len() {
                assert(ps[k] == row[k - prev.len()]);
            } else {
                assert(ps[k] == prev[k]);
            }
        }
        assert forall|k: int, q: int| 0 <= k < q < ps.len() implies pair_before(#[trigger] ps[k], #[trigger] ps[q]) by {
            if q < prev.len() {
                assert(ps[k] == prev[k] && ps[q] == prev[q]);
            } else if k < prev.len() {
                assert(ps[k] == prev[k]);
                assert(ps[q] == row[q - prev.len()]);
            } else {
                assert(ps[k] == row[k - prev.len()]);
                assert(ps[q] == row[q - prev.len()]);
            }
        }
        assert forall|a: int, b: int| 0 <= a < b < n && a < m implies #[trigger] ps.contains((a, b)) by {
            if a < m - 1 {
                assert(prev.contains((a, b)));
                let k = choose|k: int| 0 <= k < prev.len() && prev[k] == (a, b);
                assert(ps[k] == (a, b));
            } else {
                assert(ps[prev.len() + (b - m)] == row[b - m]);
            }
        }
    }
}

proof fn lemma_pair_boards_positions(board: Seq<Card>, deck: Seq<Card>, m: int)
    requires
        0 <= m <= deck.len(),
    ensures
        pair_boards(board, deck, m) == pair_positions(deck.len() as int, m).map_values(
            |p: (int, int)| board.push(deck[p.0]).push(deck[p.1]),
        ),
    decreases m,
{
    if m > 0 {
        lemma_pair_boards_positions(board, deck, m - 1);
        let f = |p: (int, int)| board.push(deck[p.0]).push(deck[p.1]);
        let n = deck.len() as int;
        let row = Seq::new((n - m) as nat, |t: int| (m - 1, m + t));
        assert(pair_positions(n, m) == pair_positions(n, m - 1) + row);
        assert(pair_row(board, deck, m - 1) =~= row.map_values(f));
        assert((pair_positions(n, m - 1) + row).map_values(f) =~= pair_positions(n, m - 1).map_values(f)
            + row.map_values(f));
    } else {
        assert(pair_boards(board, deck, m) =~= pair_positions(deck.len() as int, m).map_values(
            |p: (int, int)| board.push(deck[p.0]).push(deck[p.1]),
        ));
    }
}

/// The live cards hold no card twice.
proof fn lemma_live_deck_distinct(hero: Seq<Card>, villain: Seq<Card>, board: Seq<Card>)
    ensures
        live_deck(hero, villain, board).no_duplicates(),
{
    law_deck_distinct();
    crate::rng::lemma_filter_no_duplicates(deck_seq(), |c: Card| is_live(hero, villain, board, c));
}

/// An exhaustive count runs over every completion of the board by live
/// cards once each: every counted board completes the known board with
/// distinct live cards, no board is counted twice, and on the turn every
/// live card, on the flop every two live cards (in deck order), make a
/// counted board.
pub proof fn law_exhaustive_completions(hero: Seq<Card>, villain: Seq<Card>, board: Seq<Card>)
    requires
        3 <= board.len() <= 5,
    ensures
        ({
            let deck = live_deck(hero, villain, board);
            let boards = exhaustive_boards(board, deck);
            &&& forall|k: int| 0 <= k < boards.len() ==> is_completion(board, deck, #[trigger] boards[k])
            &&& forall|k: int, q: int| 0 <= k < q < boards.len() ==> #[trigger] boards[k] != #[trigger] boards[q]
            &&& board.len() == 4 ==> forall|i: int| 0 <= i < deck.len() ==> boards.contains(board.push(#[trigger] deck[i]))
            &&& board.len() == 3 ==> forall|i: int, j: int|
                0 <= i < j < deck.len() ==> boards.contains(board.push(#[trigger] deck[i]).push(#[trigger] deck[j]))
        }),
{
    let deck = live_deck(hero, villain, board);
    let boards = exhaustive_boards(board, deck);
    lemma_live_deck_distinct(hero, villain, board);
    let bl = board.len() as int;
    if bl == 5 {
        assert forall|k: int| 0 <= k < boards.len() implies is_completion(board, deck, #[trigger] boards[k]) by {
            assert(boards[k] == board);
            assert(board.take(5) =~= board);
            assert(board.skip(5) =~= Seq::<Card>::empty());
        }
    } else if bl == 4 {
        assert forall|k: int| 0 <= k < boards.len() implies is_completion(board, deck, #[trigger] boards[k]) by {
            let full = board.push(deck[k]);
            assert(boards[k] == full);
            assert(full.take(4) =~= board);
            assert(full.skip(4) =~= seq![deck[k]]);
        }
        assert forall|k: int, q: int| 0 <= k < q < boards.len() implies #[trigger] boards[k] != #[trigger] boards[q] by {
            assert(boards[k][4] == deck[k]);
            assert(boards[q][4] == deck[q]);
        }
        assert forall|i: int| 0 <= i < deck.len() implies boards.contains(board.push(#[trigger] deck[i])) by {
            assert(boards[i] == board.push(deck[i]));
        }
    } else {
        let n = deck.len() as int;
        let f = |p: (int, int)| board.push(deck[p.0]).push(deck[p.1]);
        lemma_pair_boards_positions(board, deck, n);
        lemma_pair_positions(n, n);
        let ps = pair_positions(n, n);
        assert(boards == ps.map_values(f));
        assert forall|k: int| 0 <= k < boards.len() implies is_completion(board, deck, #[trigger] boards[k]) by {
            let p = ps[k];
            let full = board.push(deck[p.0]).push(deck[p.1]);
            assert(boards[k] == full);
            assert(full.take(3) =~= board);
            assert(full.skip(3) =~= seq![deck[p.0], deck[p.1]]);
            assert(deck[p.0] != deck[p.1]);
        }
        assert forall|k: int, q: int| 0 <= k < q < boards.len() implies #[trigger] boards[k] != #[trigger] boards[q] by {
            let a = ps[k];
            let b = ps[q];
            assert(pair_before(a, b));
            assert(boards[k][3] == deck[a.0] && boards[k][4] == deck[a.1]);
            assert(boards[q][3] == deck[b.0] && boards[q][4] == deck[b.1]);
        }
        assert forall|i: int, j: int| 0 <= i < j < deck.len() implies boards.contains(
            board.push(#[trigger] deck[i]).push(#[trigger] deck[j]),
        ) by {
            assert(ps.contains((i, j)));
            let k = choose|k: int| 0 <= k < ps.len() && ps[k] == (i, j);
            assert(boards[k] == board.push(deck[i]).push(deck[j]));
        }
    }
}


/// The counts are a function of the request: two calls whose modes resolve
/// alike (the same mode twice, or `Auto` and the mode it resolves to, such
/// as 10,000 samples with seed 42 before the flop) give equal tallies.
pub proof fn law_counts_determined(
    t: EquityTally,
    u: EquityTally,
    hero: Seq<Card>,
    villain: Seq<Card>,
    board: Seq<Card>,
    mode1: EvalMode,
    mode2: EvalMode,
    hi_lo: bool,
    game: Game,
)
    requires
        hand_vs_hand_result(t, hero, villain, board, mode1, hi_lo, game),
        hand_vs_hand_result(u, hero, villain, board, mode2, hi_lo, game),
        resolved_mode(mode1, board.len() as int) == resolved_mode(mode2, board.len() as int),
    ensures
        t == u,
{
}

} // verus!
