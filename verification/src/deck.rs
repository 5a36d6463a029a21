//! The draw pile: how many copies of each card are left, and the random
//! generator that picks the next card.
use vstd::prelude::*;
use rand::rngs::SmallRng;
use rand::{Rng, SeedableRng};
use crate::hand::Hand;

pub mod card;

verus! {

/// The generator type `rand::rngs::SmallRng`, carried as an opaque value.
#[verifier::external_type_specification]
#[verifier::external_body]
pub struct ExSmallRng(SmallRng);

/// Cards in a full deck.
pub const FULL_DECK_SIZE: i8 = 94;

/// How many copies of each card a full deck holds: one 0, one 1, two 2s, ...,
/// twelve 12s, one of each modifier and three of each action card.
pub open spec fn full_deck() -> Seq<int> {
    seq![1, 1, 2, 3, 4, 5, 6, 7, 8, 9, 10, 11, 12, 1, 1, 1, 1, 1, 1, 3, 3, 3]
}

/// The sum of the first `n` counts of `s`.
pub open spec fn count_sum(s: Seq<int>, n: int) -> int
    decreases n,
{
    if n <= 0 {
        0
    } else {
        count_sum(s, n - 1) + s[n - 1]
    }
}

/// How many of `hands` hold card `c`.
pub open spec fn holders(hands: Seq<Hand>, c: nat) -> nat
    decreases hands.len(),
{
    if hands.len() == 0 {
        0
    } else {
        holders(hands.drop_last(), c) + if hands.last().holds(c) {
            1nat
        } else {
            0nat
        }
    }
}

/// A deck refilled with the full deck less the cards 0 to 18 that `hands`
/// hold.
pub open spec fn refilled(hands: Seq<Hand>) -> Seq<int> {
    Seq::new(
        22,
        |c: int|
            full_deck()[c] - if c < 19 {
                holders(hands, c as nat) as int
            } else {
                0
            },
    )
}

/// The fresh composition as an array.
fn full_cards() -> (a: [i8; 22])
    ensures
        forall|c: int| 0 <= c < 22 ==> a@[c] == full_deck()[c],
{
    [1, 1, 2, 3, 4, 5, 6, 7, 8, 9, 10, 11, 12, 1, 1, 1, 1, 1, 1, 3, 3, 3]
}

/// `SmallRng::seed_from_u64`: a generator seeded from `seed`. Nothing about
/// the numbers it will produce is stated.
#[verifier::external_body]
fn seeded_rng(seed: u64) -> SmallRng {
    SmallRng::seed_from_u64(seed)
}

/// `Rng::random_range` on `0..bound`: some value of the range. Which one
/// depends on the state of the generator and is not stated; the call panics
/// on an empty range, which `requires` leaves out.
#[verifier::external_body]
fn random_below(rng: &mut SmallRng, bound: i8) -> (r: i8)
    requires
        0 < bound,
    ensures
        0 <= r < bound,
{
    rng.random_range(0..bound)
}

/// The draw pile.
#[derive(Debug)]
pub struct Deck {
    cards: [i8; 22],  // 0 - 12: number cards, 13-18: modifiers, 19-21: actions
    total_remaining: i8,
    rng: SmallRng,
}

impl Deck {
    /// How many copies of each card are left, indexed by card.
    pub closed spec fn counts(&self) -> Seq<int> {
        self.cards@.map_values(|c: i8| c as int)
    }

    /// The random generator that picks the next card.
    pub closed spec fn generator(&self) -> SmallRng {
        self.rng
    }

    /// How many cards are left.
    pub closed spec fn remaining(&self) -> int {
        self.total_remaining as int
    }

    /// Each count lies between zero and the full deck's, and the total is
    /// their sum.
    pub open spec fn wf(&self) -> bool {
        &&& self.counts().len() == 22
        &&& forall|c: int| 0 <= c < 22 ==> 0 <= #[trigger] self.counts()[c] <= full_deck()[c]
        &&& self.remaining() == count_sum(self.counts(), 22)
    }

    /// A full deck of 94 cards whose draws are driven by `seed`.
    pub fn new(seed: u64) -> (d: Self)
        ensures
            d.wf(),
            d.counts() == full_deck(),
            d.remaining() == 94,
    {
        let d = Self { cards: full_cards(), total_remaining: FULL_DECK_SIZE, rng: seeded_rng(seed) };
        proof {
            assert(d.counts() =~= full_deck());
            lemma_full_deck_total();
        }
        d
    }

    /// Takes one copy of number card `card` out of the deck, when it is a
    /// number card with a copy left; tells whether it did.
    pub fn discard(&mut self, card: usize) -> (ok: bool)
        requires
            old(self).wf(),
        ensures
            final(self).wf(),
            ok == (card < 13 && old(self).counts()[card as int] > 0),
            ok ==> final(self).counts() == old(self).counts().update(
                card as int,
                old(self).counts()[card as int] - 1,
            ),
            ok ==> final(self).remaining() == old(self).remaining() - 1,
            !ok ==> final(self).counts() == old(self).counts(),
            !ok ==> final(self).remaining() == old(self).remaining(),
            final(self).generator() == old(self).generator(),
    {
        if card < 13 && self.cards[card] > 0 {
            proof {
                lemma_count_sum_take_one(self.counts(), card as int, 22);
                lemma_count_sum_nonneg(
                    self.counts().update(card as int, self.counts()[card as int] - 1),
                    22,
                );
            }
            self.cards[card] -= 1;
            self.total_remaining -= 1;
            proof {
                assert(self.counts() =~= old(self).counts().update(
                    card as int,
                    old(self).counts()[card as int] - 1,
                ));
            }
            return true;
        }
        false
    }

    /// Draws a random card: one copy of it leaves the deck. Which card comes
    /// depends on the generator; every card with a copy left can come.
    pub fn draw(&mut self) -> (card: usize)
        requires
            old(self).wf(),
            old(self).remaining() > 0,
        ensures
            final(self).wf(),
            card < 22,
            old(self).counts()[card as int] > 0,
            final(self).counts() == old(self).counts().update(
                card as int,
                old(self).counts()[card as int] - 1,
            ),
            final(self).remaining() == old(self).remaining() - 1,
    {
        let position = random_below(&mut self.rng, self.total_remaining);
        self.take_card_at(position)
    }

    /// Takes out the card at `position` when the deck is laid out card by card
    /// in order, each card repeated as many times as copies are left: the card
    /// `c` whose copies cover that position.
    pub fn take_card_at(&mut self, position: i8) -> (card: usize)
        requires
            old(self).wf(),
            0 <= position < old(self).remaining(),
        ensures
            final(self).wf(),
            card < 22,
            count_sum(old(self).counts(), card as int) <= position < count_sum(
                old(self).counts(),
                card as int + 1,
            ),
            old(self).counts()[card as int] > 0,
            final(self).counts() == old(self).counts().update(
                card as int,
                old(self).counts()[card as int] - 1,
            ),
            final(self).remaining() == old(self).remaining() - 1,
            final(self).generator() == old(self).generator(),
    {
        let ghost counts = self.counts();
        let mut card_idx: i8 = position;
        let mut card: usize = 0;
        while card < 22
            invariant
                card <= 22,
                self.wf(),
                self.counts() == counts,
                counts == old(self).counts(),
                self.remaining() == old(self).remaining(),
                self.rng == old(self).rng,
                0 <= position < self.remaining(),
                card_idx == position - count_sum(counts, card as int),
                0 <= card_idx,
            decreases 22 - card,
        {
            let count = self.cards[card];
            proof {
                assert(counts[card as int] == count as int);
            }
            if card_idx < count {
                proof {
                    lemma_count_sum_take_one(self.counts(), card as int, 22);
                    lemma_count_sum_nonneg(
                        self.counts().update(card as int, self.counts()[card as int] - 1),
                        22,
                    );
                }
                self.cards[card] -= 1;
                self.total_remaining -= 1;
                proof {
                    assert(self.counts() =~= counts.update(card as int, counts[card as int] - 1));
                }
                return card;
            }
            card_idx -= count;
            card += 1;
        }
        proof {
            assert(false);
        }
        0
    }

    /// Refills the deck, less the cards 0 to 18 that `hands` hold (action
    /// cards are put aside as soon as drawn). When the hands hold more copies
    /// of a card than a full deck, its count goes below zero and the deck is
    /// no longer well formed; `requires` keeps the counts and the total within
    /// `i8`.
    pub fn reshuffle(&mut self, hands: &Vec<Hand>)
        requires
            forall|c: int| 0 <= c < 19 ==> #[trigger] refilled(hands@)[c] >= -128,
            count_sum(refilled(hands@), 22) >= -128,
        ensures
            final(self).counts() == refilled(hands@),
            final(self).remaining() == count_sum(final(self).counts(), 22),
            final(self).wf() == forall|c: nat| c < 19 ==> #[trigger] holders(hands@, c) <= full_deck()[c as int],
            final(self).generator() == old(self).generator(),
    {
        let ghost floor = refilled(hands@);
        /* Consider the fact that the players might have cards on their hands when this occurs */
        self.cards = full_cards();
        self.total_remaining = FULL_DECK_SIZE;
        proof {
            assert(self.counts() =~= full_deck());
            lemma_full_deck_total();
            assert forall|c: int| 0 <= c < 22 implies #[trigger] self.counts()[c] >= floor[c] by {}
        }
        let mut i: usize = 0;
        while i < hands.len()
            invariant
                i <= hands.len(),
                floor == refilled(hands@),
                count_sum(floor, 22) >= -128,
                self.rng == old(self).rng,
                self.counts().len() == 22,
                self.remaining() == count_sum(self.counts(), 22),
                forall|c: int| 0 <= c < 22 ==> #[trigger] self.counts()[c] >= floor[c],
                forall|c: int| 0 <= c < 19 ==> #[trigger] floor[c] >= -128,
                forall|c: int|
                    0 <= c < 22 ==> #[trigger] self.counts()[c] == full_deck()[c] - if c < 19 {
                        holders(hands@.take(i as int), c as nat) as int
                    } else {
                        0
                    },
            decreases hands.len() - i,
        {
            let hand = hands[i];
            proof {
                assert(hands@.take(i + 1).drop_last() =~= hands@.take(i as int));
                assert forall|c: nat| c < 19 implies #[trigger] holders(hands@.take(i + 1), c)
                    <= holders(hands@, c) by {
                    lemma_holders_take(hands@, i + 1, c);
                }
            }
            for card in 0..19usize
                invariant
                    i < hands.len(),
                    floor == refilled(hands@),
                    count_sum(floor, 22) >= -128,
                    self.rng == old(self).rng,
                    hand == hands@[i as int],
                    self.counts().len() == 22,
                    self.remaining() == count_sum(self.counts(), 22),
                    forall|c: int| 0 <= c < 19 ==> #[trigger] floor[c] >= -128,
                    forall|c: nat| c < 19 ==> #[trigger] holders(hands@.take(i + 1), c) <= holders(hands@, c),
                    hands@.take(i + 1).drop_last() == hands@.take(i as int),
                    forall|c: int|
                        0 <= c < 22 ==> #[trigger] self.counts()[c] == full_deck()[c] - if c < 19 {
                            holders(hands@.take(i as int), c as nat) as int + if c < card
                                && hand.holds(c as nat) {
                                1int
                            } else {
                                0int
                            }
                        } else {
                            0
                        },
            {
                // 19 - 21 are action cards which a instantly discarded upon been drawn
                if hand.contains(card) {
                    let ghost before = self.counts();
                    let ghost after = before.update(card as int, before[card as int] - 1);
                    proof {
                        let c = card as nat;
                        assert(holders(hands@.take(i + 1), c) == holders(hands@.take(i as int), c) + 1);
                        assert(floor[card as int] == full_deck()[card as int] - holders(hands@, c));
                        lemma_count_sum_take_one(before, card as int, 22);
                        assert forall|k: int| 0 <= k < 22 implies #[trigger] after[k] >= floor[k] by {
                            if k < 19 {
                                assert(holders(hands@.take(i + 1), k as nat) <= holders(hands@, k as nat));
                            }
                        }
                        lemma_count_sum_mono(after, floor, 22);
                    }
                    self.cards[card] -= 1;
                    self.total_remaining -= 1;
                    proof {
                        assert(self.counts() =~= after);
                    }
                }
            }
            i += 1;
            proof {
                assert forall|c: int| 0 <= c < 19 implies #[trigger] holders(hands@.take(i as int), c as nat)
                    == holders(hands@.take(i - 1), c as nat) + if hand.holds(c as nat) { 1nat } else { 0nat } by {
                }
                assert forall|c: int| 0 <= c < 22 implies #[trigger] self.counts()[c] >= floor[c] by {
                    if c < 19 {
                        lemma_holders_take(hands@, i as int, c as nat);
                    }
                }
            }
        }
        proof {
            assert(hands@.take(hands@.len() as int) =~= hands@);
            assert(self.counts() =~= refilled(hands@));
        }
    }

    /// How many cards are left.
    pub fn get_total_remaining(&self) -> (n: i8)
        ensures
            n == self.remaining(),
    {
        self.total_remaining
    }

    /// How many copies of `card` are left; 0 for an index past the last card.
    pub fn get_remaining_card(&self, card: usize) -> (n: i8)
        ensures
            n == if card < 22 {
                self.counts()[card as int]
            } else {
                0
            },
    {
        let res: i8;
        if card < self.cards.len() {
            res = self.cards[card];
        } else {
            res = 0;
        }
        res
    }
}

/// A full deck holds 94 cards.
pub proof fn lemma_full_deck_total()
    ensures
        count_sum(full_deck(), 22) == 94,
{
    reveal_with_fuel(count_sum, 23);
}

/// Taking one copy of card `i` lowers the sum of the first `n` counts by one
/// when `i` is among them.
pub proof fn lemma_count_sum_take_one(s: Seq<int>, i: int, n: int)
    requires
        0 <= i < s.len(),
        n <= s.len(),
    ensures
        count_sum(s.update(i, s[i] - 1), n) == count_sum(s, n) - if i < n {
            1int
        } else {
            0int
        },
    decreases n,
{
    if n > 0 {
        lemma_count_sum_take_one(s, i, n - 1);
    }
}

/// Counts that are each at least those of `t` sum to at least theirs.
pub proof fn lemma_count_sum_mono(s: Seq<int>, t: Seq<int>, n: int)
    requires
        n <= s.len(),
        n <= t.len(),
        forall|c: int| 0 <= c < n ==> #[trigger] s[c] >= t[c],
    ensures
        count_sum(s, n) >= count_sum(t, n),
    decreases n,
{
    if n > 0 {
        lemma_count_sum_mono(s, t, n - 1);
    }
}

/// Non-negative counts have a non-negative sum.
pub proof fn lemma_count_sum_nonneg(s: Seq<int>, n: int)
    requires
        n <= s.len(),
        forall|c: int| 0 <= c < n ==> 0 <= #[trigger] s[c],
    ensures
        count_sum(s, n) >= 0,
    decreases n,
{
    if n > 0 {
        lemma_count_sum_nonneg(s, n - 1);
    }
}

/// A prefix of the hands has no more holders of a card than all of them.
pub proof fn lemma_holders_take(hands: Seq<Hand>, i: int, c: nat)
    requires
        0 <= i <= hands.len(),
    ensures
        holders(hands.take(i), c) <= holders(hands, c),
    decreases hands.len(),
{
    if i < hands.len() {
        assert(hands.drop_last().take(i) =~= hands.take(i));
        lemma_holders_take(hands.drop_last(), i, c);
    } else {
        assert(hands.take(i) =~= hands);
    }
}

} // verus!
