use plo_eval::backend::{batch_chunks, dispatch_size, gpu_case, needs_cpu, Route, BOARD_PAD};
use plo_eval::rng::deck_without;
use plo_eval::validation::{board_text_splits, parse_board, parse_line};
use plo_eval::{random_hand, random_hands, Backend, Board, Card, EvalMode, Game, Hand};

fn card(s: &str) -> Card {
    Card::from_str(s).unwrap()
}

fn omaha(s: &str) -> Hand {
    let v: Vec<Card> = (0..4).map(|i| card(&s[2 * i..2 * i + 2])).collect();
    Hand::new([v[0], v[1], v[2], v[3]])
}

#[test]
fn dealt_hands_are_disjoint_and_live() {
    let dead = [card("As"), card("Kd")];
    let hands = random_hands(5, &dead, Some(3), Game::Omaha).unwrap();
    assert_eq!(hands.len(), 5);
    let mut seen: Vec<Card> = Vec::new();
    for h in &hands {
        assert_eq!(h.0.len(), 4);
        for c in &h.0 {
            assert!(!dead.contains(c));
            assert!(!seen.contains(c));
            seen.push(*c);
        }
        assert_eq!(h.0, Hand::new([h.0[0], h.0[1], h.0[2], h.0[3]]).0);
    }
    // The same seed deals the same hands.
    let again = random_hands(5, &dead, Some(3), Game::Omaha).unwrap();
    assert_eq!(hands.iter().map(|h| h.0.clone()).collect::<Vec<_>>(), again.iter().map(|h| h.0.clone()).collect::<Vec<_>>());
    let one = random_hand(&dead, None, Game::HoldEm).unwrap();
    assert_eq!(one.0.len(), 2);
    assert!(one.0[0] != one.0[1]);
}

#[test]
fn deck_without_dead_cards() {
    let d = deck_without(&[card("2s"), card("Ac")]);
    assert_eq!(d.len(), 50);
    assert_eq!(d[0], card("3s"));
    assert_eq!(d[49], card("Kc"));
}

#[test]
fn backend_routes() {
    for b in [Backend::Auto, Backend::Cpu, Backend::Cuda, Backend::Vulkan, Backend::Metal] {
        assert!(b.is_available());
        assert_eq!(b.evaluation_route(false, Game::HoldEm), Route::Cpu);
        assert_eq!(b.range_route(true, Game::Omaha), Route::Cpu);
        assert_eq!(b.range_route(false, Game::HoldEm), Route::Cpu);
    }
    assert_eq!(Backend::Auto.evaluation_route(false, Game::Omaha), Route::Gpu { fallback: true });
    assert_eq!(Backend::Auto.evaluation_route(true, Game::Omaha), Route::Cpu);
    assert_eq!(Backend::Cuda.evaluation_route(false, Game::Omaha), Route::Gpu { fallback: false });
    assert_eq!(Backend::Metal.evaluation_route(true, Game::Omaha), Route::Cpu);
    assert_eq!(Backend::Cuda.evaluation_route(true, Game::Omaha), Route::Cpu);
    assert_eq!(Backend::Cpu.evaluation_route(false, Game::Omaha), Route::Cpu);
    assert_eq!(Backend::Vulkan.range_route(false, Game::Omaha), Route::Gpu { fallback: true });
    assert_eq!(Backend::Cpu.range_route(false, Game::Omaha), Route::Cpu);
    assert!(needs_cpu(Route::Cpu, true));
    assert!(needs_cpu(Route::Gpu { fallback: true }, false));
    assert!(!needs_cpu(Route::Gpu { fallback: true }, true));
    assert!(!needs_cpu(Route::Gpu { fallback: false }, false));
    assert!(!needs_cpu(Route::Declined, false));
}

#[test]
fn batches_in_chunks() {
    assert_eq!(batch_chunks(0), vec![]);
    assert_eq!(batch_chunks(1), vec![(0, 1)]);
    assert_eq!(batch_chunks(256), vec![(0, 256)]);
    assert_eq!(batch_chunks(600), vec![(0, 256), (256, 512), (512, 600)]);
}

#[test]
fn gpu_case_layout() {
    let heroes = vec![omaha("AsAcKhKd")];
    let villains = vec![omaha("QsQcJhJd"), omaha("2s3s4s5s")];
    let board = Board::new(vec![card("2c"), card("7d"), card("9h")]);
    let c = gpu_case(&heroes, &villains, &board, EvalMode::Auto);
    assert_eq!(c.hero_hands, vec![[12, 51, 24, 37]]);
    assert_eq!(c.villain_hands.len(), 2);
    assert_eq!(c.villain_hands[1], [3, 2, 1, 0]);
    assert_eq!(c.board, [20, 31, 39, BOARD_PAD, BOARD_PAD]);
    assert_eq!(c.board_len, 3);
    assert_eq!((c.mode, c.samples, c.seed), (0, 0, 0));
    let pre = gpu_case(&heroes, &villains, &Board(Vec::new()), EvalMode::Auto);
    assert_eq!((pre.mode, pre.samples, pre.seed), (1, 10000, 42));
    assert_eq!(pre.board, [BOARD_PAD; 5]);
    let big = gpu_case(&heroes, &villains, &board, EvalMode::MonteCarlo { samples: (1u64 << 32) + 5, seed: 7 });
    assert_eq!((big.mode, big.samples, big.seed), (1, 5, 7));
    let many: Vec<Hand> = (0..200).map(|_| omaha("AsAcKhKd")).collect();
    let capped = gpu_case(&many, &many, &board, EvalMode::Exhaustive);
    assert_eq!(capped.hero_hands.len(), 128);
    assert_eq!(dispatch_size(&vec![c.clone(), capped.clone()]), ((128 * 128 + 63) / 64, 2));
    assert_eq!(dispatch_size(&vec![c]), (1, 1));
    assert_eq!(dispatch_size(&Vec::new()), (1, 0));
}

#[test]
fn checklist_lines() {
    let c = parse_line("case 7: AsKsQhJh  2c2d3c3d AhKd9c 55.2").unwrap();
    assert_eq!((c.hero.as_str(), c.villain.as_str(), c.board.as_str(), c.equity.as_str()), ("AsKsQhJh", "2c2d3c3d", "AhKd9c", "55.2"));
    let c = parse_line("AA KK 81.9").unwrap();
    assert_eq!((c.hero.as_str(), c.villain.as_str(), c.board.as_str(), c.equity.as_str()), ("AA", "KK", "", "81.9"));
    let c = parse_line("\tAA KK 2c7d9h 60 extra").unwrap();
    assert_eq!(c.equity, "60");
    assert!(parse_line("").is_none());
    assert!(parse_line("   ").is_none());
    assert!(parse_line("label: AA KK").is_none());
    assert!(parse_line("a:b: c d e").is_some());
}

#[test]
fn dealing_shuffles_the_deck() {
    let deck = plo_eval::full_deck();
    for seed in [1u64, 2, 3] {
        let hands = random_hands(13, &[], Some(seed), Game::Omaha).unwrap();
        let in_deck_order = hands.iter().enumerate().all(|(i, h)| {
            h.0 == Hand::new([deck[4 * i], deck[4 * i + 1], deck[4 * i + 2], deck[4 * i + 3]]).0
        });
        assert!(!in_deck_order);
        let mut all: Vec<Card> = hands.iter().flat_map(|h| h.0.clone()).collect();
        all.sort_by(|a, b| a.partial_cmp(b).unwrap());
        all.dedup();
        assert_eq!(all.len(), 52);
    }
}

#[test]
fn seeded_deals_are_reproducible() {
    let dead = [card("Kd")];
    let few = random_hands(3, &dead, Some(11), Game::HoldEm).unwrap();
    let more = random_hands(7, &dead, Some(11), Game::HoldEm).unwrap();
    for i in 0..3 {
        assert_eq!(few[i].0, more[i].0);
    }
    let one = random_hand(&dead, Some(11), Game::HoldEm).unwrap();
    assert_eq!(one.0, few[0].0);
    let other = random_hands(3, &dead, Some(12), Game::HoldEm).unwrap();
    assert!((0..3).any(|i| other[i].0 != few[i].0));
}

#[test]
fn board_texts() {
    assert_eq!(parse_board("AhKd9c"), vec![card("Ah"), card("Kd"), card("9c")]);
    assert_eq!(parse_board("éAh"), vec![card("Ah")]);
    assert_eq!(parse_board("AhXx7"), vec![card("Ah")]);
    assert_eq!(parse_board(""), Vec::<Card>::new());
    assert!(board_text_splits("éAhKd"));
    assert!(!board_text_splits("aéb"));
    assert!(!board_text_splits("€"));
}
