//! Strategies that decide (or advise) whether a hand hits or stays.
use vstd::prelude::*;
use crate::action::{Action, Recommendation};
use crate::deck::{Deck, full_deck};
use crate::dp_solver::{self, advice};
use crate::hand::Hand;
use crate::player::PlayerStatus;

verus! {

/// Whether seat `j` may be targeted by seat `acting`: another seat, still
/// active. Seats are given by hand and status.
pub open spec fn is_target(acting: usize, players: Seq<(Hand, PlayerStatus)>, j: int) -> bool {
    &&& 0 <= j < players.len()
    &&& j != acting
    &&& players[j].1 == PlayerStatus::Active
}

/// The seat chosen by default: the target with the highest hand score, the
/// last of them on a tie; `acting` itself when no seat may be targeted.
pub open spec fn picks_highest_target(acting: usize, players: Seq<(Hand, PlayerStatus)>, r: int) -> bool {
    if exists|j: int| is_target(acting, players, j) {
        &&& is_target(acting, players, r)
        &&& forall|j: int| #[trigger]
            is_target(acting, players, j) ==> players[j].0.spec_score()
                <= players[r].0.spec_score()
        &&& forall|j: int|
            r < j && #[trigger] is_target(acting, players, j) ==> players[j].0.spec_score()
                < players[r].0.spec_score()
    } else {
        r == acting
    }
}

pub trait Strategy {
    /// The action advised for `hand` against a deck with these copies left of
    /// each card and this many cards in all.
    spec fn advised(&self, hand: Hand, counts: Seq<int>, remaining: int) -> Action;

    /// The advice for `hand` with `deck` as it stands.
    fn decide(&self, hand: Hand, deck: &Deck) -> (r: Recommendation)
        requires
            deck.wf(),
        ensures
            r.action == self.advised(hand, deck.counts(), deck.remaining()),
    ;

    /// A short name.
    fn name(&self) -> &str;

    /// The seat that a card played by seat `acting` goes to; `players` holds
    /// the hand and status of each seat.
    fn choose_target(&self, acting: usize, players: &[(Hand, PlayerStatus)], card: usize) -> (target: usize)
        default_ensures
            picks_highest_target(acting, players@, target as int),
    {
        // Default implementation for strategy: Always return highest hand
        let mut found = false;
        let mut best: usize = acting;
        let mut best_score: i32 = 0;
        let mut i: usize = 0;
        while i < players.len()
            invariant
                i <= players@.len(),
                !found ==> forall|j: int| 0 <= j < i ==> !#[trigger] is_target(acting, players@, j),
                !found ==> best == acting,
                found ==> {
                    &&& best < i
                    &&& is_target(acting, players@, best as int)
                    &&& best_score == players@[best as int].0.spec_score()
                    &&& forall|j: int|
                        0 <= j < i && #[trigger] is_target(acting, players@, j)
                            ==> players@[j].0.spec_score() <= best_score
                    &&& forall|j: int|
                        best < j < i && #[trigger] is_target(acting, players@, j)
                            ==> players@[j].0.spec_score() < best_score
                },
            decreases players@.len() - i,
        {
            proof {
                assert(is_target(acting, players@, i as int) == (i != acting && players@[i as int].1
                    == PlayerStatus::Active));
            }
            if i != acting && players[i].1 == PlayerStatus::Active {
                let s = players[i].0.score();
                if !found || s >= best_score {
                    found = true;
                    best = i;
                    best_score = s;
                }
            }
            i += 1;
        }
        best
    }
}

/// Advises by the exact expected value of hitting against staying.
pub struct ExpectedValue;

impl Strategy for ExpectedValue {
    /// The exact advice, against a full deck when fewer than five cards are
    /// left.
    open spec fn advised(&self, hand: Hand, counts: Seq<int>, remaining: int) -> Action {
        if remaining < 5 {
            advice(hand, full_deck()).action
        } else {
            advice(hand, counts).action
        }
    }

    fn decide(&self, hand: Hand, deck: &Deck) -> (r: Recommendation)
        ensures
            deck.remaining() < 5 ==> r == advice(hand, full_deck()),
            deck.remaining() >= 5 ==> r == advice(hand, deck.counts()),
    {
        dp_solver::recommend(hand, deck)
    }

    fn name(&self) -> (s: &str)
        ensures
            s@ == "Expected value"@,
    {
        "Expected value"
    }
}

/// Hits while the hand scores below the threshold.
pub struct Threshold(pub i32);

impl Strategy for Threshold {
    /// Hit below the threshold, else stay.
    open spec fn advised(&self, hand: Hand, counts: Seq<int>, remaining: int) -> Action {
        if hand.spec_score() < self.0 {
            Action::Hit(None)
        } else {
            Action::Stay
        }
    }

    fn decide(&self, hand: Hand, deck: &Deck) -> (r: Recommendation)
        ensures
            r.action == if hand.spec_score() < self.0 {
                Action::Hit(None)
            } else {
                Action::Stay
            },
            r.hit is None,
            r.stay is None,
    {
        let action = if hand.score() < self.0 {
            Action::Hit(None)
        } else {
            Action::Stay
        };
        Recommendation::simple(action)
    }

    fn name(&self) -> (s: &str)
        ensures
            s@ == "threshold"@,
    {
        "threshold"
    }
}

} // verus!
