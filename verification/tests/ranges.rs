use plo_eval::range::{expand_holdem_range, holdem_offsuit_combos, holdem_pair_combos, holdem_suited_combos, rank_from_val};
use plo_eval::{Card, Game, Rank, Range};

fn card(s: &str) -> Card {
    Card::from_str(s).unwrap()
}

#[test]
fn test_holdem_range_pair() {
    // "AA": all six pairs of aces.
    let range = Range::from_shorthand("AA", &[], Game::HoldEm).unwrap();
    assert_eq!(range.hands.len(), 6);
    for hand in &range.hands {
        assert_eq!(hand.0.len(), 2);
        assert!(hand.0.iter().all(|c| c.rank == Rank::Ace));
    }
}

#[test]
fn test_holdem_range_pair_plus_and_dash() {
    // "22+": every pair 22..AA, 13 ranks * 6 combos = 78.
    let plus = Range::from_shorthand("22+", &[], Game::HoldEm).unwrap();
    assert_eq!(plus.hands.len(), 13 * 6);

    // "22-66": pairs 22,33,44,55,66 -> 5 ranks * 6 combos = 30.
    let dash = Range::from_shorthand("22-66", &[], Game::HoldEm).unwrap();
    assert_eq!(dash.hands.len(), 5 * 6);
}

#[test]
fn test_holdem_range_unpaired_suitedness() {
    let both = Range::from_shorthand("AK", &[], Game::HoldEm).unwrap();
    assert_eq!(both.hands.len(), 16);

    let suited = Range::from_shorthand("AKs", &[], Game::HoldEm).unwrap();
    assert_eq!(suited.hands.len(), 4);

    let offsuit = Range::from_shorthand("AKo", &[], Game::HoldEm).unwrap();
    assert_eq!(offsuit.hands.len(), 12);
}

#[test]
fn test_holdem_range_plus_and_dash_unpaired() {
    // "ATs+": ATs, AJs, AQs, AKs -> 4 ranks * 4 combos = 16.
    let ats_plus = Range::from_shorthand("ATs+", &[], Game::HoldEm).unwrap();
    assert_eq!(ats_plus.hands.len(), 4 * 4);

    // "KQo+": only KQo itself -> 12 combos.
    let kqo_plus = Range::from_shorthand("KQo+", &[], Game::HoldEm).unwrap();
    assert_eq!(kqo_plus.hands.len(), 12);

    // "JTs-54s": JT, T9, 98, 87, 76, 65, 54 -> 7 * 4 = 28.
    let dash_suited = Range::from_shorthand("JTs-54s", &[], Game::HoldEm).unwrap();
    assert_eq!(dash_suited.hands.len(), 7 * 4);

    // Same range, offsuit: 7 * 12 = 84.
    let dash_offsuit = Range::from_shorthand("JTo-54o", &[], Game::HoldEm).unwrap();
    assert_eq!(dash_offsuit.hands.len(), 7 * 12);
}

#[test]
fn test_holdem_range_exact_combo_and_dead_cards() {
    let exact = Range::from_shorthand("AhKd", &[], Game::HoldEm).unwrap();
    assert_eq!(exact.hands.len(), 1);
    assert_eq!(exact.hands[0].0.len(), 2);

    // Removing one Ace leaves 3 remaining pair combos (C(3,2) = 3).
    let dead = [Card::from_str("As").unwrap()];
    let pair_minus_dead = Range::from_shorthand("AA", &dead, Game::HoldEm).unwrap();
    assert_eq!(pair_minus_dead.hands.len(), 3);
    assert!(pair_minus_dead.hands.iter().all(|h| !h.0.contains(&dead[0])));
}

#[test]
fn test_holdem_range_isolated_from_omaha() {
    let omaha_aa = Range::from_shorthand("AA", &[], Game::Omaha).unwrap();
    let holdem_aa = Range::from_shorthand("AA", &[], Game::HoldEm).unwrap();
    assert_eq!(omaha_aa.hands[0].0.len(), 4);
    assert_eq!(holdem_aa.hands[0].0.len(), 2);
    assert_ne!(omaha_aa.hands.len(), holdem_aa.hands.len());
}

#[test]
fn omaha_patterns() {
    // Two or more aces among four cards: C(4,2)*C(48,2) + C(4,3)*48 + 1.
    let aa = Range::from_shorthand("AA", &[], Game::Omaha).unwrap();
    assert_eq!(aa.hands.len(), 6 * 1128 + 4 * 48 + 1);
    // At least one of each of A, K, Q, J.
    let akqj = Range::from_shorthand("AKQJ", &[], Game::Omaha).unwrap();
    assert_eq!(akqj.hands.len(), 256);
    // Dead cards leave the deck first.
    let dead = [card("As"), card("Ah")];
    let aa_dead = Range::from_shorthand("AA", &dead, Game::Omaha).unwrap();
    assert_eq!(aa_dead.hands.len(), 1128);
    assert!(aa_dead.hands.iter().all(|h| !h.0.contains(&dead[0]) && !h.0.contains(&dead[1])));
}

#[test]
fn omaha_exact_hands() {
    let r = Range::from_shorthand(" AsKsQhJh , 2c2d3c3d", &[], Game::Omaha).unwrap();
    assert_eq!(r.hands.len(), 2);
    assert_eq!(r.hands[0].0, vec![card("As"), card("Ks"), card("Qh"), card("Jh")]);
    assert_eq!(r.hands[1].0, vec![card("3d"), card("3c"), card("2d"), card("2c")]);
    // A dead card drops the hand, leaving nothing.
    let dead = [card("Ks")];
    assert_eq!(Range::from_shorthand("AsKsQhJh", &dead, Game::Omaha).unwrap_err(), "Empty range");
}

#[test]
fn range_errors() {
    assert_eq!(Range::from_shorthand("", &[], Game::Omaha).unwrap_err(), "Empty range");
    assert_eq!(Range::from_shorthand(" , ", &[], Game::HoldEm).unwrap_err(), "Empty range");
    assert_eq!(Range::from_shorthand("AX", &[], Game::Omaha).unwrap_err(), "Invalid rank: X");
    assert_eq!(Range::from_shorthand("AKQ", &[], Game::Omaha).unwrap_err(), "Unsupported range notation: 'AKQ'");
    assert_eq!(
        Range::from_shorthand("AA, AsKsQhJx", &[], Game::Omaha).unwrap_err(),
        "Unsupported range notation: 'AsKsQhJx'"
    );
    assert_eq!(Range::from_shorthand("A", &[], Game::HoldEm).unwrap_err(), "Unsupported Hold'em range token: 'A'");
    assert_eq!(Range::from_shorthand("AX", &[], Game::HoldEm).unwrap_err(), "Invalid rank in 'AX'");
    assert_eq!(Range::from_shorthand("AKx", &[], Game::HoldEm).unwrap_err(), "Unsupported Hold'em range token: 'AKx'");
    assert_eq!(
        Range::from_shorthand("22-67", &[], Game::HoldEm).unwrap_err(),
        "'22-67' mixes a pair with a non-pair in a dash range"
    );
    assert_eq!(
        Range::from_shorthand("JTs-54o", &[], Game::HoldEm).unwrap_err(),
        "'JTs-54o' mixes suited and offsuit across a dash range"
    );
    assert_eq!(
        Range::from_shorthand("JTs-55s", &[], Game::HoldEm).unwrap_err(),
        "'JTs-55s' mixes a pair with a non-pair in a dash range"
    );
    assert_eq!(
        Range::from_shorthand("JTs-53s", &[], Game::HoldEm).unwrap_err(),
        "'JTs-53s' dash range must keep a constant gap between ranks"
    );
    // The first bad part is reported, after good ones.
    assert_eq!(Range::from_shorthand("AA,KX,QY", &[], Game::HoldEm).unwrap_err(), "Invalid rank in 'KX'");
}

#[test]
fn holdem_exact_combo_edges() {
    // The same card twice, or a dead card, gives no hand.
    assert_eq!(expand_holdem_range("AsAs", &[]).unwrap().len(), 0);
    assert_eq!(expand_holdem_range("AhKd", &[card("Kd")]).unwrap().len(), 0);
    assert_eq!(expand_holdem_range("  ", &[]).unwrap().len(), 0);
    let h = expand_holdem_range(" KdAh ", &[]).unwrap();
    assert_eq!(h[0].0, vec![card("Ah"), card("Kd")]);
}

#[test]
fn holdem_ranges_in_order() {
    // "99-77" counts down the same way as "77-99".
    let a = Range::from_shorthand("99-77", &[], Game::HoldEm).unwrap();
    let b = Range::from_shorthand("77-99", &[], Game::HoldEm).unwrap();
    assert_eq!(a.hands.len(), 18);
    assert_eq!(a.hands.iter().map(|h| h.0.clone()).collect::<Vec<_>>(), b.hands.iter().map(|h| h.0.clone()).collect::<Vec<_>>());
    assert_eq!(a.hands[0].0, vec![card("7s"), card("7h")]);
    // "54s-JTs" is the same as "JTs-54s".
    let c = Range::from_shorthand("54s-JTs", &[], Game::HoldEm).unwrap();
    assert_eq!(c.hands.len(), 28);
    // "KA" is "AK".
    let d = Range::from_shorthand("KAs", &[], Game::HoldEm).unwrap();
    assert_eq!(d.hands[0].0, vec![card("As"), card("Ks")]);
}

#[test]
fn holdem_combo_builders() {
    assert_eq!(holdem_pair_combos(Rank::Ace, &[]).len(), 6);
    assert_eq!(holdem_pair_combos(Rank::Ace, &[card("As"), card("Ah")]).len(), 1);
    assert_eq!(holdem_suited_combos(Rank::Ace, Rank::King, &[]).len(), 4);
    assert_eq!(holdem_suited_combos(Rank::Ace, Rank::King, &[card("Kc")]).len(), 3);
    assert_eq!(holdem_offsuit_combos(Rank::Ace, Rank::King, &[]).len(), 12);
    assert_eq!(holdem_offsuit_combos(Rank::Ace, Rank::King, &[card("Kc")]).len(), 9);
    let first = &holdem_offsuit_combos(Rank::Ace, Rank::King, &[])[0];
    assert_eq!(first.0, vec![card("As"), card("Kh")]);
}

#[test]
fn rank_values() {
    assert_eq!(rank_from_val(2), Some(Rank::Two));
    assert_eq!(rank_from_val(10), Some(Rank::Ten));
    assert_eq!(rank_from_val(14), Some(Rank::Ace));
    assert_eq!(rank_from_val(1), None);
    assert_eq!(rank_from_val(15), None);
    for v in 2..=14u32 {
        assert_eq!(rank_from_val(v).unwrap().value() as u32, v);
    }
}

#[test]
fn every_parsed_hand_is_clean() {
    let dead = [card("As"), card("Kd"), card("7h")];
    for (text, game, size) in [("AA,KK,AKQJ", Game::Omaha, 4), ("22+,AKo,JTs-54s,AhKh", Game::HoldEm, 2)] {
        let r = Range::from_shorthand(text, &dead, game).unwrap();
        for h in &r.hands {
            assert_eq!(h.0.len(), size);
            assert!(dead.iter().all(|d| !h.0.contains(d)));
        }
    }
}

#[test]
fn non_ascii_parts_are_errors() {
    assert_eq!(Range::from_shorthand("é", &[], Game::Omaha).unwrap_err(), "Invalid rank: é");
    assert_eq!(Range::from_shorthand("AAé", &[], Game::Omaha).unwrap_err(), "Invalid rank: é");
    assert_eq!(Range::from_shorthand("Aé", &[], Game::Omaha).unwrap_err(), "Unsupported range notation: 'Aé'");
    assert_eq!(Range::from_shorthand("ééé", &[], Game::Omaha).unwrap_err(), "Unsupported range notation: 'ééé'");
    assert_eq!(Range::from_shorthand("é", &[], Game::HoldEm).unwrap_err(), "Unsupported Hold'em range token: 'é'");
    assert_eq!(Range::from_shorthand("Aé", &[], Game::HoldEm).unwrap_err(), "Invalid rank in 'Aé'");
    assert_eq!(Range::from_shorthand("AAé", &[], Game::HoldEm).unwrap_err(), "Unsupported Hold'em range token: 'AAé'");
    assert_eq!(Range::from_shorthand("AA-é", &[], Game::HoldEm).unwrap_err(), "Invalid rank in 'AA-é'");
    assert_eq!(
        Range::from_shorthand("AKs-9é", &[], Game::HoldEm).unwrap_err(),
        "'AKs-9é' mixes suited and offsuit across a dash range"
    );
    assert_eq!(Range::from_shorthand("AKs-és", &[], Game::HoldEm).unwrap_err(), "Invalid rank in 'AKs-és'");
    assert_eq!(Range::from_shorthand("AKs-é", &[], Game::HoldEm).unwrap_err(), "Unsupported Hold'em range token: 'AKs-é'");
    // Whitespace around a part is still trimmed, and good parts before a bad one still parse.
    assert_eq!(Range::from_shorthand("AA, \u{3000}é", &[], Game::HoldEm).unwrap_err(), "Unsupported Hold'em range token: 'é'");
    assert_eq!(expand_holdem_range("Kɑ", &[]).unwrap_err(), "Invalid rank in 'Kɑ'");
}
