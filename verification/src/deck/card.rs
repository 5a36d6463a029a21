//! Indices of the special cards.
use vstd::prelude::*;

verus! {

// Modifier cards
pub const PLUS_TWO: usize = 13;

pub const PLUS_FOUR: usize = 14;

pub const PLUS_SIX: usize = 15;

pub const PLUS_EIGHT: usize = 16;

pub const PLUS_TEN: usize = 17;

pub const TIMES_TWO: usize = 18;

// Action cards
pub const FLIP_THREE: usize = 19;

pub const FREEZE: usize = 20;

pub const SECOND_CHANCE: usize = 21;

} // verus!
