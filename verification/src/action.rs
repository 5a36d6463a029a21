//! What a player does on a turn, and the advice a strategy gives.
use vstd::prelude::*;

verus! {

/// Take a card (optionally naming the card actually dealt at the table) or stay.
#[derive(Clone, Copy, PartialEq, Eq, Structural, Debug)]
pub enum Action {
    Hit(Option<usize>),
    Stay,
}

/// An exact non-negative rational number `num / den`.
#[derive(Clone, Copy, PartialEq, Eq, Structural, Debug)]
pub struct Ratio {
    pub num: u128,
    pub den: u128,
}

/// A recommended action, with the expected values behind it when the
/// strategy computed them.
#[derive(Debug)]
pub struct Recommendation {
    pub action: Action,
    pub hit: Option<Ratio>,
    pub stay: Option<Ratio>,
}

impl Recommendation {
    /// A recommendation without values.
    pub fn simple(action: Action) -> (r: Self)
        ensures
            r.action == action,
            r.hit is None,
            r.stay is None,
    {
        Recommendation { action, hit: None, stay: None }
    }

    /// A recommendation with the expected values of hitting and staying.
    pub fn with_detail(action: Action, hit_value: Ratio, stay_value: Ratio) -> (r: Self)
        ensures
            r.action == action,
            r.hit == Some(hit_value),
            r.stay == Some(stay_value),
    {
        Recommendation { action, hit: Some(hit_value), stay: Some(stay_value) }
    }
}

} // verus!
