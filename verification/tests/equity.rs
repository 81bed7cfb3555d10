use plo_eval::equity::{contains_card, live_cards};
use plo_eval::{evaluate_hand_vs_hand, evaluate_hand_vs_range, evaluate_range_vs_range_internal};
use plo_eval::{Board, Card, EquityTally, EvalMode, Game, Hand, Range, Rank, Suit};

fn card(s: &str) -> Card {
    Card::from_str(s).unwrap()
}

fn cards(s: &str) -> Vec<Card> {
    (0..s.len() / 2).map(|i| card(&s[2 * i..2 * i + 2])).collect()
}

fn omaha(s: &str) -> Hand {
    let v = cards(s);
    Hand::new([v[0], v[1], v[2], v[3]])
}

fn holdem(s: &str) -> Hand {
    let v = cards(s);
    Hand::holdem([v[0], v[1]])
}

fn win(t: &EquityTally) -> f64 {
    t.hero_wins as f64 / t.trial_count as f64
}

fn tie(t: &EquityTally) -> f64 {
    t.ties as f64 / t.trial_count as f64
}

fn loss(t: &EquityTally) -> f64 {
    t.villain_wins as f64 / t.trial_count as f64
}

fn win_low(t: &EquityTally) -> Option<f64> {
    if t.hi_lo && t.low_count > 0 {
        Some(t.hero_wins_low as f64 / t.low_count as f64)
    } else {
        None
    }
}

#[test]
fn test_hand_vs_hand_exhaustive() {
    let hero = Hand::new([
        Card::new(Rank::Ace, Suit::Spades),
        Card::new(Rank::Ace, Suit::Clubs),
        Card::new(Rank::Two, Suit::Hearts),
        Card::new(Rank::Three, Suit::Diamonds),
    ]);
    let villain = Hand::new([
        Card::new(Rank::King, Suit::Spades),
        Card::new(Rank::King, Suit::Clubs),
        Card::new(Rank::Four, Suit::Hearts),
        Card::new(Rank::Five, Suit::Diamonds),
    ]);
    let board = Board::new(vec![
        Card::new(Rank::Ace, Suit::Hearts),
        Card::new(Rank::King, Suit::Hearts),
        Card::new(Rank::Seven, Suit::Diamonds),
        Card::new(Rank::Eight, Suit::Clubs),
        Card::new(Rank::Nine, Suit::Spades),
    ]);

    let result = evaluate_hand_vs_hand(hero, villain, board, EvalMode::Exhaustive, false, Game::Omaha);
    assert_eq!(win(&result), 1.0);
    assert_eq!(loss(&result), 0.0);
    assert_eq!(tie(&result), 0.0);
}

#[test]
fn test_omaha_hi_lo() {
    let hero = Hand::new([
        Card::new(Rank::Ace, Suit::Spades),
        Card::new(Rank::Two, Suit::Clubs),
        Card::new(Rank::King, Suit::Hearts),
        Card::new(Rank::King, Suit::Diamonds),
    ]);
    let villain = Hand::new([
        Card::new(Rank::Ace, Suit::Clubs),
        Card::new(Rank::Three, Suit::Clubs),
        Card::new(Rank::Queen, Suit::Hearts),
        Card::new(Rank::Queen, Suit::Diamonds),
    ]);
    let board = Board::new(vec![
        Card::new(Rank::Three, Suit::Hearts),
        Card::new(Rank::Four, Suit::Diamonds),
        Card::new(Rank::Five, Suit::Clubs),
        Card::new(Rank::Ten, Suit::Spades),
        Card::new(Rank::Jack, Suit::Clubs),
    ]);

    let result = evaluate_hand_vs_hand(hero, villain, board, EvalMode::Exhaustive, true, Game::Omaha);

    // Hero makes the wheel low; villain makes no low at all.
    assert_eq!(win_low(&result), Some(1.0));
}

#[test]
fn test_holdem_hand_vs_hand_exhaustive() {
    let hero = Hand::holdem([Card::from_str("As").unwrap(), Card::from_str("Ac").unwrap()]);
    let villain = Hand::holdem([Card::from_str("4h").unwrap(), Card::from_str("5d").unwrap()]);
    let board = Board::new(vec![
        Card::from_str("Ah").unwrap(),
        Card::from_str("Kh").unwrap(),
        Card::from_str("7d").unwrap(),
        Card::from_str("8c").unwrap(),
        Card::from_str("9s").unwrap(),
    ]);

    let result = evaluate_hand_vs_hand(hero, villain, board, EvalMode::Exhaustive, false, Game::HoldEm);
    assert_eq!(win(&result), 1.0);
    assert_eq!(loss(&result), 0.0);
    assert_eq!(tie(&result), 0.0);
}

#[test]
fn exhaustive_trial_counts() {
    // Flop: every pair of the 41 live cards.
    let flop = evaluate_hand_vs_hand(
        omaha("AsAcKhKd"),
        omaha("QsQcJhJd"),
        Board::new(cards("2c7d9h")),
        EvalMode::Exhaustive,
        false,
        Game::Omaha,
    );
    assert_eq!(flop.trial_count, 41 * 40 / 2);
    assert_eq!(flop.hero_wins + flop.ties + flop.villain_wins, flop.trial_count);
    assert_eq!(flop.mode, EvalMode::Exhaustive);
    // Turn: one trial per live card.
    let turn = evaluate_hand_vs_hand(
        omaha("AsAcKhKd"),
        omaha("QsQcJhJd"),
        Board::new(cards("2c7d9h3s")),
        EvalMode::Auto,
        false,
        Game::Omaha,
    );
    assert_eq!(turn.trial_count, 40);
    assert_eq!(turn.mode, EvalMode::Exhaustive);
    // River: one trial.
    let river = evaluate_hand_vs_hand(
        holdem("AsAc"),
        holdem("KsKc"),
        Board::new(cards("2c7d9h3s4d")),
        EvalMode::Exhaustive,
        false,
        Game::HoldEm,
    );
    assert_eq!(river.trial_count, 1);
    assert_eq!((river.hero_wins, river.ties, river.villain_wins), (1, 0, 0));
}

#[test]
fn tie_on_board_royal() {
    let t = evaluate_hand_vs_hand(
        holdem("2c3d"),
        holdem("4c5d"),
        Board::new(cards("AsKsQsJsTs")),
        EvalMode::Exhaustive,
        false,
        Game::HoldEm,
    );
    assert_eq!((t.hero_wins, t.ties, t.villain_wins, t.trial_count), (0, 1, 0, 1));
}

#[test]
fn swapping_players_swaps_wins() {
    let a = omaha("AsAcKhKd");
    let b = omaha("QsQcJhJd");
    let board = cards("2c7d9h3s");
    let t = evaluate_hand_vs_hand(a.clone(), b.clone(), Board::new(board.clone()), EvalMode::Exhaustive, true, Game::Omaha);
    let u = evaluate_hand_vs_hand(b, a, Board::new(board), EvalMode::Exhaustive, true, Game::Omaha);
    assert_eq!(t.trial_count, u.trial_count);
    assert_eq!(t.hero_wins, u.villain_wins);
    assert_eq!(t.ties, u.ties);
    assert_eq!(t.villain_wins, u.hero_wins);
    assert_eq!(t.hero_wins_low, u.villain_wins_low);
    assert_eq!(t.low_count, u.low_count);
}

#[test]
fn monte_carlo_counts() {
    let mode = EvalMode::MonteCarlo { samples: 500, seed: 7 };
    let t = evaluate_hand_vs_hand(omaha("AsAcKhKd"), omaha("QsQcJhJd"), Board(Vec::new()), mode, true, Game::Omaha);
    assert_eq!(t.trial_count, 500);
    assert_eq!(t.hero_wins + t.ties + t.villain_wins, 500);
    assert_eq!(t.hero_wins_low + t.ties_low + t.villain_wins_low, t.low_count);
    assert!(t.low_count <= 500);
    assert_eq!(t.mode, mode);
    // The same seed deals the same boards.
    let again = evaluate_hand_vs_hand(omaha("AsAcKhKd"), omaha("QsQcJhJd"), Board(Vec::new()), mode, true, Game::Omaha);
    assert_eq!(t, again);
}

#[test]
fn auto_preflop_samples() {
    let t = evaluate_hand_vs_hand(holdem("AsAc"), holdem("7d2c"), Board(Vec::new()), EvalMode::Auto, false, Game::HoldEm);
    assert_eq!(t.mode, EvalMode::MonteCarlo { samples: 10000, seed: 42 });
    assert_eq!(t.trial_count, 10000);
    assert!(t.hero_wins > t.villain_wins);
    assert_eq!(t.low_count, 0);
}

#[test]
fn live_cards_leave_out_dealt_cards() {
    let hero = omaha("AsAcKhKd");
    let villain = omaha("QsQcJhJd");
    let board = Board::new(cards("2c7d9h"));
    let live = live_cards(&hero, &villain, &board);
    assert_eq!(live.len(), 41);
    for c in cards("AsAcKhKdQsQcJhJd2c7d9h") {
        assert!(!contains_card(&live, c));
    }
    assert!(contains_card(&live, card("3c")));
}

#[test]
fn hand_vs_range_skips_overlaps() {
    let hero = omaha("AsAcKhKd");
    let board = Board::new(cards("2c7d9h3s4d"));
    let range = Range { hands: vec![omaha("QsQcJhJd"), omaha("AsQdJs8c"), omaha("2c5h6h8d"), omaha("TsTcThTd")] };
    let out = evaluate_hand_vs_range(hero, range, board, EvalMode::Exhaustive, false, Game::Omaha);
    let villains: Vec<usize> = out.iter().map(|m| m.villain).collect();
    assert_eq!(villains, vec![0, 3]);
    assert!(out.iter().all(|m| m.hero == 0 && m.tally.trial_count == 1));
    assert_eq!(out[0].tally.hero_wins, 1);
}

#[test]
fn range_vs_range_pairs() {
    let board = Board::new(cards("2c7d9h"));
    let heroes = Range { hands: vec![omaha("AsAcKhKd"), omaha("2c5h6h8d"), omaha("QsQcJhJd")] };
    let villains = Range { hands: vec![omaha("QsQcJhJd"), omaha("TsTcThTd")] };
    let out = evaluate_range_vs_range_internal(heroes, villains, board, EvalMode::Exhaustive, false, Game::Omaha);
    let pairs: Vec<(usize, usize)> = out.iter().map(|m| (m.hero, m.villain)).collect();
    // Hero 1 touches the board; hero 2 holds villain 0's cards.
    assert_eq!(pairs, vec![(0, 0), (0, 1), (2, 1)]);
    assert!(out.iter().all(|m| m.tally.trial_count == 41 * 40 / 2));
}

#[test]
fn auto_preflop_is_seeded_sampling() {
    let auto = evaluate_hand_vs_hand(omaha("AsAcKhKd"), omaha("QsQcJhJd"), Board(Vec::new()), EvalMode::Auto, false, Game::Omaha);
    let explicit = evaluate_hand_vs_hand(
        omaha("AsAcKhKd"),
        omaha("QsQcJhJd"),
        Board(Vec::new()),
        EvalMode::MonteCarlo { samples: 10000, seed: 42 },
        false,
        Game::Omaha,
    );
    assert_eq!(auto, explicit);
    assert_eq!(plo_eval::equity::resolve_mode(EvalMode::Auto, 0), EvalMode::MonteCarlo { samples: 10000, seed: 42 });
    assert_eq!(plo_eval::equity::resolve_mode(EvalMode::Exhaustive, 3), EvalMode::Exhaustive);
}

#[test]
fn swapping_players_swaps_sampled_wins() {
    let mode = EvalMode::MonteCarlo { samples: 300, seed: 9 };
    let board = cards("2c7d");
    let t = evaluate_hand_vs_hand(omaha("AsAcKhKd"), omaha("QsQcJhJd"), Board::new(board.clone()), mode, true, Game::Omaha);
    let u = evaluate_hand_vs_hand(omaha("QsQcJhJd"), omaha("AsAcKhKd"), Board::new(board), mode, true, Game::Omaha);
    assert_eq!((t.hero_wins, t.ties, t.villain_wins), (u.villain_wins, u.ties, u.hero_wins));
    assert_eq!((t.hero_wins_low, t.ties_low, t.villain_wins_low), (u.villain_wins_low, u.ties_low, u.hero_wins_low));
}
