//! Pot-Limit Omaha and Hold'em hand evaluation and equity calculation.
use vstd::prelude::*;

pub mod cards;
pub mod card_order;
pub mod eval;
pub mod eval_fast;
pub mod showdown;
pub mod rng;
pub mod equity;
pub mod range;
pub mod backend;
pub mod validation;

pub use backend::Backend;
pub use cards::{full_deck, Board, Card, Game, Hand, Rank, Suit};
pub use equity::{
    evaluate_hand_vs_hand, evaluate_hand_vs_range, evaluate_range_vs_range_internal, EquityTally, EvalMode, Matchup,
};
pub use eval::HandRank;
pub use range::Range;
pub use rng::{random_hand, random_hands};
pub use showdown::{evaluate_holdem_hand, evaluate_omaha_hand, evaluate_omaha_hand_low};

verus! {

} // verus!
