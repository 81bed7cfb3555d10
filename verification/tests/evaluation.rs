use plo_eval::eval::{evaluate_5_cards, evaluate_5_cards_low};
use plo_eval::eval_fast::{card_index_to_card, card_to_index, evaluate_5_cards_fast, hand_rank_to_score};
use plo_eval::showdown::{compare_hands, low_beats};
use plo_eval::{evaluate_holdem_hand, evaluate_omaha_hand, evaluate_omaha_hand_low};
use plo_eval::{full_deck, Board, Card, Game, Hand, HandRank, Rank, Suit};

fn card(s: &str) -> Card {
    Card::from_str(s).unwrap()
}

fn cards(s: &str) -> Vec<Card> {
    (0..s.len() / 2).map(|i| card(&s[2 * i..2 * i + 2])).collect()
}

fn five(s: &str) -> [Card; 5] {
    let v = cards(s);
    [v[0], v[1], v[2], v[3], v[4]]
}

#[test]
fn test_omaha_evaluation() {
    // AsAcKhKd on an AhKs2d board.
    let hero = Hand::new([
        Card::new(Rank::Ace, Suit::Spades),
        Card::new(Rank::Ace, Suit::Clubs),
        Card::new(Rank::King, Suit::Hearts),
        Card::new(Rank::King, Suit::Diamonds),
    ]);
    let board = vec![
        Card::new(Rank::Ace, Suit::Hearts),
        Card::new(Rank::King, Suit::Spades),
        Card::new(Rank::Two, Suit::Diamonds),
    ];

    // Exactly two hole cards and all three board cards.
    let rank = evaluate_omaha_hand(&hero, &board);
    match rank {
        HandRank::ThreeOfAKind(Rank::Ace, Rank::King, Rank::Two) => (),
        _ => panic!("Expected Three of a Kind Aces, got {:?}", rank),
    }
}

#[test]
fn test_canonical_sorting() {
    let cards = [
        Card::from_str("Ac").unwrap(),
        Card::from_str("As").unwrap(),
        Card::from_str("Kh").unwrap(),
        Card::from_str("2d").unwrap(),
    ];
    let hand = Hand::new(cards);
    // Rank descending, then Spades > Hearts > Diamonds > Clubs.
    assert_eq!(hand.0[0], Card::from_str("As").unwrap());
    assert_eq!(hand.0[1], Card::from_str("Ac").unwrap());
    assert_eq!(hand.0[2], Card::from_str("Kh").unwrap());
    assert_eq!(hand.0[3], Card::from_str("2d").unwrap());
}

#[test]
fn test_holdem_evaluation() {
    // The board alone is a royal flush; Hold'em may use no hole card.
    let hole = Hand::holdem([Card::from_str("Ah").unwrap(), Card::from_str("Kh").unwrap()]);
    let board = vec![
        Card::from_str("As").unwrap(),
        Card::from_str("Ks").unwrap(),
        Card::from_str("Qs").unwrap(),
        Card::from_str("Js").unwrap(),
        Card::from_str("Ts").unwrap(),
    ];
    let rank = evaluate_holdem_hand(&hole, &board);
    assert_eq!(rank, HandRank::StraightFlush(Rank::Ace));
}

#[test]
fn test_holdem_canonical_sorting() {
    let hand = Hand::holdem([Card::from_str("Ac").unwrap(), Card::from_str("As").unwrap()]);
    assert_eq!(hand.0[0], Card::from_str("As").unwrap());
    assert_eq!(hand.0[1], Card::from_str("Ac").unwrap());
    assert_eq!(hand.game(), Game::HoldEm);
}

#[test]
fn five_card_categories() {
    assert_eq!(evaluate_5_cards(&five("AsKsQsJsTs")), HandRank::StraightFlush(Rank::Ace));
    assert_eq!(evaluate_5_cards(&five("5d4d3d2dAd")), HandRank::StraightFlush(Rank::Five));
    assert_eq!(evaluate_5_cards(&five("9s9h9d9c2s")), HandRank::FourOfAKind(Rank::Nine, Rank::Two));
    assert_eq!(evaluate_5_cards(&five("7s7h7dKcKs")), HandRank::FullHouse(Rank::Seven, Rank::King));
    assert_eq!(
        evaluate_5_cards(&five("Kh9h7h4h2h")),
        HandRank::Flush(Rank::King, Rank::Nine, Rank::Seven, Rank::Four, Rank::Two)
    );
    assert_eq!(evaluate_5_cards(&five("9s8h7d6c5s")), HandRank::Straight(Rank::Nine));
    assert_eq!(evaluate_5_cards(&five("As2h3d4c5s")), HandRank::Straight(Rank::Five));
    assert_eq!(evaluate_5_cards(&five("QsQhQd4c2s")), HandRank::ThreeOfAKind(Rank::Queen, Rank::Four, Rank::Two));
    assert_eq!(evaluate_5_cards(&five("JsJh4d4c2s")), HandRank::TwoPair(Rank::Jack, Rank::Four, Rank::Two));
    assert_eq!(
        evaluate_5_cards(&five("TsTh8d4c2s")),
        HandRank::OnePair(Rank::Ten, Rank::Eight, Rank::Four, Rank::Two)
    );
    assert_eq!(
        evaluate_5_cards(&five("KsJh8d4c2s")),
        HandRank::HighCard(Rank::King, Rank::Jack, Rank::Eight, Rank::Four, Rank::Two)
    );
}

#[test]
fn five_card_low() {
    assert_eq!(
        evaluate_5_cards_low(&five("As2h3d4c5s")),
        Some([Rank::Five, Rank::Four, Rank::Three, Rank::Two, Rank::Ace])
    );
    assert_eq!(
        evaluate_5_cards_low(&five("8s7h6d4c2s")),
        Some([Rank::Eight, Rank::Seven, Rank::Six, Rank::Four, Rank::Two])
    );
    // A nine does not qualify, nor does a pair.
    assert_eq!(evaluate_5_cards_low(&five("9s7h6d4c2s")), None);
    assert_eq!(evaluate_5_cards_low(&five("7s7h6d4c2s")), None);
}

#[test]
fn scores_follow_hand_strength() {
    let sf = hand_rank_to_score(HandRank::StraightFlush(Rank::Ace));
    assert_eq!(sf, 8000014);
    let quads = hand_rank_to_score(HandRank::FourOfAKind(Rank::Nine, Rank::Two));
    assert_eq!(quads, 7000000 + 9 * 15 + 2);
    let high = hand_rank_to_score(HandRank::HighCard(Rank::King, Rank::Jack, Rank::Eight, Rank::Four, Rank::Two));
    assert_eq!(high, 13 * 50625 + 11 * 3375 + 8 * 225 + 4 * 15 + 2);
    assert!(sf > quads && quads > high);
    assert!(HandRank::StraightFlush(Rank::Ace) > HandRank::FourOfAKind(Rank::Nine, Rank::Two));
}

#[test]
fn fast_evaluator_matches_score() {
    let hand = five("AsKsQsJsTs");
    let idx = [
        card_to_index(hand[0]),
        card_to_index(hand[1]),
        card_to_index(hand[2]),
        card_to_index(hand[3]),
        card_to_index(hand[4]),
    ];
    assert_eq!(evaluate_5_cards_fast(&idx), hand_rank_to_score(evaluate_5_cards(&hand)));
    assert_eq!(evaluate_5_cards_fast(&idx), 8000014);
}

#[test]
fn card_index_roundtrip() {
    assert_eq!(card_to_index(card("2s")), 0);
    assert_eq!(card_to_index(card("As")), 12);
    assert_eq!(card_to_index(card("2h")), 13);
    assert_eq!(card_to_index(card("Ac")), 51);
    for i in 0..52u8 {
        assert_eq!(card_to_index(card_index_to_card(i)), i);
    }
}

#[test]
fn full_deck_is_52_distinct_cards() {
    let deck = full_deck();
    assert_eq!(deck.len(), 52);
    for i in 0..52 {
        for j in i + 1..52 {
            assert_ne!(deck[i], deck[j]);
        }
    }
    assert_eq!(deck[0], card("2s"));
    assert_eq!(deck[51], card("Ac"));
}

#[test]
fn notation_roundtrip() {
    for c in full_deck() {
        assert_eq!(Card::from_str(&c.to_string()), Some(c));
    }
    assert_eq!(card("As").to_string(), "As");
    assert_eq!(card("td").to_string(), "Td");
    assert_eq!(Card::from_str("A"), None);
    assert_eq!(Card::from_str("Asx"), None);
    assert_eq!(Card::from_str("Xs"), None);
    assert_eq!(Card::from_str("Ax"), None);
}

#[test]
fn rank_and_suit_characters() {
    for r in Rank::all() {
        assert_eq!(Rank::from_char(r.to_char()), Some(r));
    }
    for s in Suit::all() {
        assert_eq!(Suit::from_char(s.to_char()), Some(s));
    }
    assert_eq!(Rank::from_char('t'), Some(Rank::Ten));
    assert_eq!(Rank::from_char('1'), None);
    assert_eq!(Suit::from_char('H'), Some(Suit::Hearts));
    assert_eq!(Suit::from_char('x'), None);
    assert_eq!(Rank::all().len(), 13);
    assert_eq!(Suit::all().len(), 4);
}

#[test]
fn board_is_sorted() {
    let b = Board::new(cards("2d7cAhKh"));
    assert_eq!(b.0, cards("AhKh7c2d"));
}

#[test]
fn omaha_uses_exactly_two_hole_cards() {
    // Four hearts in hand and only two on the board: no flush for Omaha.
    let hand = Hand::new([card("Ah"), card("Kh"), card("Qh"), card("Jh")]);
    let board = cards("2h3h9c8d4s");
    let r = evaluate_omaha_hand(&hand, &board);
    assert_eq!(r, HandRank::HighCard(Rank::Ace, Rank::King, Rank::Nine, Rank::Eight, Rank::Four));
    // Hold'em with the same five board cards and two of the hearts does make one.
    let hole = Hand::holdem([card("Ah"), card("Kh")]);
    let board = cards("2h3h9h8d4s");
    assert_eq!(
        evaluate_holdem_hand(&hole, &board),
        HandRank::Flush(Rank::Ace, Rank::King, Rank::Nine, Rank::Three, Rank::Two)
    );
}

#[test]
fn short_board_gives_weakest_rank() {
    let hand = Hand::new([card("Ah"), card("Kh"), card("Qh"), card("Jh")]);
    let weakest = HandRank::HighCard(Rank::Two, Rank::Two, Rank::Two, Rank::Two, Rank::Two);
    assert_eq!(evaluate_omaha_hand(&hand, &cards("2h3h")), weakest);
    assert_eq!(evaluate_omaha_hand_low(&hand, &cards("2h3h")), None);
}

#[test]
fn omaha_low_best() {
    let hero = Hand::new([card("As"), card("2c"), card("Kh"), card("Kd")]);
    let villain = Hand::new([card("Ac"), card("3c"), card("Qh"), card("Qd")]);
    let board = cards("3h4d5cTsJc");
    assert_eq!(
        evaluate_omaha_hand_low(&hero, &board),
        Some([Rank::Five, Rank::Four, Rank::Three, Rank::Two, Rank::Ace])
    );
    assert_eq!(evaluate_omaha_hand_low(&villain, &board), None);
    let (hr, vr, hl, vl) = compare_hands(&hero, &villain, &board, true);
    assert_eq!(hr, evaluate_omaha_hand(&hero, &board));
    assert_eq!(vr, evaluate_omaha_hand(&villain, &board));
    assert_eq!(hl, evaluate_omaha_hand_low(&hero, &board));
    assert_eq!(vl, None);
    let (_, _, hl, vl) = compare_hands(&hero, &villain, &board, false);
    assert_eq!((hl, vl), (None, None));
}

#[test]
fn lower_low_wins() {
    let wheel = [Rank::Five, Rank::Four, Rank::Three, Rank::Two, Rank::Ace];
    let six = [Rank::Six, Rank::Four, Rank::Three, Rank::Two, Rank::Ace];
    assert!(low_beats(&wheel, &six));
    assert!(!low_beats(&six, &wheel));
    assert!(!low_beats(&wheel, &wheel));
}

#[test]
fn cards_compare_in_canonical_order() {
    assert!(card("As") < card("Ac"));
    assert!(card("As") < card("Kh"));
    assert!(card("2d") < card("2c"));
    assert!(card("Kh") > card("Ac"));
    assert_eq!(card("Td").partial_cmp(&card("Td")), Some(std::cmp::Ordering::Equal));
    let mut v = cards("2d7cAhKhAs");
    v.sort_by(|a, b| a.partial_cmp(b).unwrap());
    assert_eq!(v, cards("AsAhKh7c2d"));
    assert_eq!(v, Board::new(cards("2d7cAhKhAs")).0);
}

#[test]
fn canonical_form_ignores_order() {
    let c = cards("7h2cAsTd");
    let base = Hand::new([c[0], c[1], c[2], c[3]]).0;
    assert_eq!(base, cards("AsTd7h2c"));
    for p in [[3, 2, 1, 0], [1, 3, 0, 2], [2, 0, 3, 1]] {
        let h = Hand::new([c[p[0]], c[p[1]], c[p[2]], c[p[3]]]);
        assert_eq!(h.0, base);
        // Sorting again changes nothing.
        assert_eq!(Hand::new([h.0[0], h.0[1], h.0[2], h.0[3]]).0, base);
    }
    assert_eq!(Hand::omaha([c[0], c[1], c[2], c[3]]).0, base);
    assert_eq!(Hand::new([c[0], c[1], c[2], c[3]]).game(), Game::Omaha);
}

#[test]
fn five_card_rank_ignores_order() {
    let a = five("7s7h7dKcKs");
    let b = [a[4], a[2], a[0], a[3], a[1]];
    assert_eq!(evaluate_5_cards(&a), evaluate_5_cards(&b));
    let c = five("As2h3d4c5s");
    let d = [c[3], c[1], c[4], c[0], c[2]];
    assert_eq!(evaluate_5_cards(&c), evaluate_5_cards(&d));
    assert_eq!(evaluate_5_cards_low(&c), evaluate_5_cards_low(&d));
}
