//! A seat at the table.
use vstd::prelude::*;
use crate::hand::Hand;
use crate::strategy::{ExpectedValue, Strategy};

verus! {

broadcast use vstd::string::to_string_from_display_ensures_for_str;

/// Whether the strategy plays the seat's turns or only advises its player.
#[derive(Clone, Copy, PartialEq, Eq, Structural, Debug)]
pub enum ControlMode {
    Automatic,
    Advisory,
}

/// Where a seat stands in the current round.
#[derive(Clone, Copy, PartialEq, Eq, Structural, Debug)]
pub enum PlayerStatus {
    Active,
    Frozen,
    Stayed,
    Busted,
}

/// A player: name, hand, score over the rounds, status in the round, the
/// strategy that plays or advises, and how it is used.
pub struct Player {
    pub name: String,
    pub hand: Hand,  // Hand mask
    pub cumulative_score: u32,
    pub status: PlayerStatus,
    pub strategy: Box<dyn Strategy>,
    pub control: ControlMode,
    /* Action cards */
    pub has_second_chance: bool,
}

impl Player {
    /// A player with an empty hand, no points, active, holding the strategy
    /// given.
    pub fn new(name: &str, mut strategy: Box<dyn Strategy>, control: ControlMode) -> (p: Self)
        ensures
            p.name@ == name@,
            p.hand == Hand(0),
            p.cumulative_score == 0,
            p.status == PlayerStatus::Active,
            p.control == control,
            !p.has_second_chance,
            p.strategy == strategy,
    {
        let mut p = Player {
            name: name.to_string(),
            hand: Hand::empty(),
            cumulative_score: 0,
            status: PlayerStatus::Active,
            strategy: Box::new(ExpectedValue),
            control,
            has_second_chance: false,
        };
        // The given box is swapped in, not moved into the literal: a move
        // there is compiled as an unsizing coercion of the box, which would
        // leave the field unrelated to `strategy` in the contract.
        core::mem::swap(&mut p.strategy, &mut strategy);
        p
    }
}

} // verus!
