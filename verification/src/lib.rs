//! Flip Seven: hands, the deck, an exact expected-value advisor and the
//! round/turn state machine of the card game.
use vstd::prelude::*;

pub mod hand;
pub mod deck;
pub mod action;
pub mod dp_solver;
pub mod player;
pub mod strategy;
pub mod game;
pub mod text;
pub mod command;

pub use hand::Hand;
pub use deck::Deck;
pub use action::{Action, Ratio, Recommendation};
pub use player::{Player, ControlMode, PlayerStatus};
pub use strategy::{Strategy, ExpectedValue, Threshold};
pub use game::{Game, StepOutcome};

verus! {

} // verus!
