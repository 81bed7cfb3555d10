//! The canonical order on cards as Rust's `<`: higher rank first, then
//! Spades, Hearts, Diamonds, Clubs.
use vstd::prelude::*;
use vstd::std_specs::cmp::PartialOrdSpecImpl;

use core::cmp::Ordering;

use crate::cards::{canonical_key, Card};

verus! {

impl PartialOrd for Card {
    fn partial_cmp(&self, other: &Card) -> (r: Option<Ordering>) {
        let a = self.canonical_key();
        let b = other.canonical_key();
        if a < b {
            Some(Ordering::Less)
        } else if a == b {
            Some(Ordering::Equal)
        } else {
            Some(Ordering::Greater)
        }
    }
}

impl PartialOrdSpecImpl for Card {
    open spec fn obeys_partial_cmp_spec() -> bool {
        true
    }

    open spec fn partial_cmp_spec(&self, other: &Card) -> Option<Ordering> {
        if canonical_key(*self) < canonical_key(*other) {
            Some(Ordering::Less)
        } else if canonical_key(*self) == canonical_key(*other) {
            Some(Ordering::Equal)
        } else {
            Some(Ordering::Greater)
        }
    }
}

} // verus!
