//! The expected-value advisor: a hand may stay, or take one more number card
//! and go on playing optimally. The value of a hand is the larger of the two
//! expectations, computed exactly. Each number card not held comes with the
//! probability `copies left / number cards left` of the deck as it stands
//! now; drawing another kind of card leaves the hand as it was and is not
//! weighed.
//!
//! Values are kept as numerators over `t^depth(h)`, `t` the number of number
//! cards left (1 when none is left) and `depth(h)` the number of cards the
//! hand can still take before it holds seven number cards.
use vstd::prelude::*;
use std::collections::HashMap;
use crate::action::{Action, Ratio, Recommendation};
use crate::deck::{Deck, count_sum, full_deck};
use crate::hand::{Hand, lemma_with_number_cards, lemma_score_bounds, MAX_SCORE};

verus! {

broadcast use vstd::std_specs::hash::group_hash_axioms;

/// `b` to the power `e`.
pub open spec fn power(b: int, e: nat) -> int
    decreases e,
{
    if e == 0 {
        1
    } else {
        b * power(b, (e - 1) as nat)
    }
}

/// How many more number cards the hand can take before it holds seven.
pub open spec fn depth(h: Hand) -> nat {
    if h.number_cards() >= 7 {
        0
    } else {
        (7 - h.number_cards()) as nat
    }
}

/// The value of hand `h` played optimally, times `t^depth(h)`, against a deck
/// with `counts` copies of each card and `t` cards in all. A hand of seven
/// number cards is worth its score; another is worth the larger of its score
/// and the expectation of taking one more card.
pub open spec fn ev_num(h: Hand, counts: Seq<int>, t: int) -> int
    decreases depth(h), 14nat,
{
    if h.number_cards() >= 7 {
        h.spec_score()
    } else {
        let stay = h.spec_score() * power(t, depth(h));
        let hit = hit_num(h, counts, t, 13);
        if stay >= hit {
            stay
        } else {
            hit
        }
    }
}

/// The expectation of taking one more card, over the number cards `0..k` not
/// held, times `t^depth(h)`: each card `c` weighs `counts[c]`.
pub open spec fn hit_num(h: Hand, counts: Seq<int>, t: int, k: nat) -> int
    decreases depth(h), k,
{
    if k == 0 || h.number_cards() >= 7 {
        0
    } else {
        let c = (k - 1) as nat;
        hit_num(h, counts, t, c) + if c >= 13 || h.holds(c) {
            0
        } else {
            proof {
                lemma_with_number_cards(h, c);
            }
            counts[c as int] * ev_num(h.spec_with(c), counts, t)
        }
    }
}

/// The number cards left.
pub open spec fn number_total(counts: Seq<int>) -> int {
    count_sum(counts, 13)
}

/// The denominator of the draw probabilities: the number cards left, or 1
/// when none is left (every number card then weighs 0).
pub open spec fn weight_base(counts: Seq<int>) -> int {
    if number_total(counts) > 0 {
        number_total(counts)
    } else {
        1
    }
}

/// The copies left of each card as a deck holds them, and the denominator
/// `t` of the draw probabilities.
pub open spec fn deck_model(counts: Seq<int>, t: int) -> bool {
    &&& counts.len() == 22
    &&& forall|c: int| 0 <= c < 22 ==> 0 <= #[trigger] counts[c] <= full_deck()[c]
    &&& t == weight_base(counts)
}

/// The advice for `hand` against a deck of `counts`: hit when the value of
/// the hand is above its score, with the value of hitting
/// (`ev_num / t^depth`, `t` the weight base) and of staying (the score).
pub open spec fn advice(hand: Hand, counts: Seq<int>) -> Recommendation {
    let t = weight_base(counts);
    let hit = ev_num(hand, counts, t);
    let den = power(t, depth(hand));
    Recommendation {
        action: if hit > hand.spec_score() * den {
            Action::Hit(None)
        } else {
            Action::Stay
        },
        hit: Some(Ratio { num: hit as u128, den: den as u128 }),
        stay: Some(Ratio { num: hand.spec_score() as u128, den: 1 }),
    }
}

/// The values already computed, keyed by the hand's bits.
struct Table {
    memo: HashMap<u32, u128>,
}

impl Table {
    spec fn holds_values(&self, counts: Seq<int>, t: int) -> bool {
        forall|k: u32| #[trigger]
            self.memo@.contains_key(k) ==> self.memo@[k] == ev_num(Hand(k), counts, t)
    }

    fn value(&mut self, hand: Hand, deck: &Deck, total: u32) -> (v: u128)
        requires
            deck.wf(),
            total == weight_base(deck.counts()),
            old(self).holds_values(deck.counts(), total as int),
        ensures
            v == ev_num(hand, deck.counts(), total as int),
            final(self).holds_values(deck.counts(), total as int),
        decreases depth(hand),
    {
        let ghost counts = deck.counts();
        let ghost t = total as int;
        proof {
            lemma_weight_base_le(counts);
        }
        if let Some(v) = self.memo.get(&hand.0) {
            return *v;
        }
        if hand.len() >= 7 {
            let score = hand.score() as u128;
            self.memo.insert(hand.0, score);
            return score;
        }
        let d = 7 - hand.len();
        proof {
            lemma_power_bound(t, d as nat);
            lemma_score_bounds(hand);
            lemma_ev_bounds(hand, counts, t);
            lemma_hit_bounds(hand, counts, t, 13);
            lemma_mul_bound(hand.spec_score(), MAX_SCORE as int, power(t, d as nat), POWER_BOUND as int);
        }
        let stay_score = (hand.score() as u128) * power_of(total as u128, d);
        let mut hit_score: u128 = 0;
        for card in 0..13usize
            invariant
                deck.wf(),
                counts == deck.counts(),
                t == total,
                t == weight_base(counts),
                1 <= t <= 79,
                hand.number_cards() < 7,
                self.holds_values(counts, t),
                hit_score == hit_num(hand, counts, t, card as nat),
        {
            proof {
                lemma_hit_bounds(hand, counts, t, card as nat + 1);
                lemma_count_sum_mono(counts, card as int + 1, 13);
                lemma_count_sum_mono(counts, 0, card as int + 1);
                lemma_power_bound(t, (depth(hand) - 1) as nat);
                lemma_mul_bound(
                    count_sum(counts, card as int + 1),
                    79,
                    MAX_SCORE * power(t, (depth(hand) - 1) as nat),
                    MAX_SCORE * (POWER_BOUND as int),
                );
            }
            if hand.0 & (1u32 << card) == 0 {
                let p = deck.get_remaining_card(card) as u128;
                proof {
                    lemma_with_number_cards(hand, card as nat);
                }
                let child = self.value(hand.with(card), deck, total);
                hit_score += p * child;
            }
        }
        let ans = if stay_score >= hit_score {
            stay_score
        } else {
            hit_score
        };
        self.memo.insert(hand.0, ans);
        ans
    }
}

/// Exact advice for `hand`. A deck of fewer than five cards is not used:
/// the advice is then taken against a fresh deck.
pub fn recommend(hand: Hand, deck: &Deck) -> (r: Recommendation)
    requires
        deck.wf(),
    ensures
        deck.remaining() < 5 ==> r == advice(hand, full_deck()),
        deck.remaining() >= 5 ==> r == advice(hand, deck.counts()),
        hand.number_cards() >= 7 ==> r.action == Action::Stay,
        r.hit matches Some(h) && r.stay matches Some(s) && h.num >= s.num * h.den,
        r.hit matches Some(h) && r.stay matches Some(s) && (r.action is Hit <==> h.num > s.num
            * h.den),
{
    proof {
        lemma_advice_hits_when_better(hand, full_deck());
        lemma_advice_hits_when_better(hand, deck.counts());
    }
    // Checking that the deck has enough cards to make a decision
    if deck.get_total_remaining() < 5 {
        let fallback = Deck::new(2345);
        evaluate(hand, &fallback)
    } else {
        evaluate(hand, deck)
    }
}

fn evaluate(hand: Hand, deck: &Deck) -> (r: Recommendation)
    requires
        deck.wf(),
    ensures
        r == advice(hand, deck.counts()),
        hand.number_cards() >= 7 ==> r.action == Action::Stay,
        r.hit matches Some(h) && r.stay matches Some(s) && h.num >= s.num * h.den,
{
    let ghost counts = deck.counts();
    let mut numbers: u32 = 0;
    for c in 0..13usize
        invariant
            deck.wf(),
            counts == deck.counts(),
            numbers == count_sum(counts, c as int),
    {
        proof {
            lemma_count_sum_le(counts, full_deck(), c as int + 1);
            lemma_full_numbers_total();
            lemma_count_sum_mono(full_deck(), c as int + 1, 13);
        }
        numbers += deck.get_remaining_card(c) as u32;
    }
    let total: u32 = if numbers > 0 {
        numbers
    } else {
        1
    };
    let mut table = Table { memo: HashMap::new() };
    let stay_value = hand.score();
    proof {
        lemma_weight_base_le(counts);
        lemma_ev_bounds(hand, counts, total as int);
        lemma_power_bound(total as int, depth(hand));
        lemma_mul_bound(stay_value as int, MAX_SCORE as int, power(total as int, depth(hand)), POWER_BOUND as int);
    }
    let hit_value = table.value(hand, deck, total);
    let d = if hand.len() >= 7 {
        0
    } else {
        7 - hand.len()
    };
    let den = power_of(total as u128, d);
    let action = if hit_value > (stay_value as u128) * den {
        Action::Hit(None)
    } else {
        Action::Stay
    };
    Recommendation::with_detail(
        action,
        Ratio { num: hit_value, den },
        Ratio { num: stay_value as u128, den: 1 },
    )
}

/// `power(b, e)` for a base of at most 100 and an exponent of at most 7.
fn power_of(b: u128, e: u32) -> (r: u128)
    requires
        b <= 100,
        e <= 7,
    ensures
        r == power(b as int, e as nat),
{
    let mut r: u128 = 1;
    let mut i: u32 = 0;
    while i < e
        invariant
            i <= e <= 7,
            b <= 100,
            r == power(b as int, i as nat),
        decreases e - i,
    {
        proof {
            lemma_power_bound(b as int, i as nat);
            lemma_mul_bound(b as int, 100, r as int, POWER_BOUND as int);
        }
        r = b * r;
        i += 1;
    }
    r
}

/// `100^7`, above any `t^d` the solver forms.
pub const POWER_BOUND: u64 = 100_000_000_000_000;

proof fn lemma_mul_bound(x: int, xb: int, y: int, yb: int)
    requires
        0 <= x <= xb,
        0 <= y <= yb,
    ensures
        0 <= x * y <= xb * yb,
{
    assert(0 <= x * y <= xb * yb) by (nonlinear_arith)
        requires
            0 <= x <= xb,
            0 <= y <= yb,
    ;
}

proof fn lemma_power_bound(b: int, e: nat)
    requires
        0 <= b <= 100,
        e <= 7,
    ensures
        0 <= power(b, e) <= power(100, e) <= POWER_BOUND as int,
        b > 0 ==> power(b, e) > 0,
    decreases e,
{
    if e > 0 {
        lemma_power_bound(b, (e - 1) as nat);
        lemma_mul_bound(b, 100, power(b, (e - 1) as nat), power(100, (e - 1) as nat));
        assert(b > 0 ==> b * power(b, (e - 1) as nat) > 0) by (nonlinear_arith)
            requires
                b > 0 ==> power(b, (e - 1) as nat) > 0,
                b >= 0,
        ;
    }
    assert(power(100, 7) == POWER_BOUND as int) by {
        reveal_with_fuel(power, 8);
    }
    lemma_power_mono_exp(e, 7);
}

proof fn lemma_power_mono_exp(e1: nat, e2: nat)
    requires
        e1 <= e2,
    ensures
        power(100, e1) <= power(100, e2),
    decreases e2,
{
    if e1 < e2 {
        lemma_power_mono_exp(e1, (e2 - 1) as nat);
        lemma_power_pos(100, (e2 - 1) as nat);
    }
}

proof fn lemma_power_pos(b: int, e: nat)
    requires
        b > 0,
    ensures
        power(b, e) > 0,
    decreases e,
{
    if e > 0 {
        lemma_power_pos(b, (e - 1) as nat);
        assert(b * power(b, (e - 1) as nat) > 0) by (nonlinear_arith)
            requires
                b > 0,
                power(b, (e - 1) as nat) > 0,
        ;
    }
}

/// A full deck holds 79 number cards.
pub(crate) proof fn lemma_full_numbers_total()
    ensures
        count_sum(full_deck(), 13) == 79,
{
    reveal_with_fuel(count_sum, 14);
}

/// The weight base lies between 1 and 79.
proof fn lemma_weight_base_le(counts: Seq<int>)
    requires
        counts.len() == 22,
        forall|c: int| 0 <= c < 22 ==> 0 <= #[trigger] counts[c] <= full_deck()[c],
    ensures
        1 <= weight_base(counts) <= 79,
        number_total(counts) >= 0,
{
    lemma_count_sum_le(counts, full_deck(), 13);
    lemma_full_numbers_total();
    lemma_count_sum_mono(counts, 0, 13);
}

proof fn lemma_count_sum_le(s: Seq<int>, u: Seq<int>, n: int)
    requires
        n <= s.len(),
        n <= u.len(),
        forall|c: int| 0 <= c < n ==> #[trigger] s[c] <= u[c],
    ensures
        count_sum(s, n) <= count_sum(u, n),
    decreases n,
{
    if n > 0 {
        lemma_count_sum_le(s, u, n - 1);
    }
}

/// For non-negative counts the sum grows with the number of terms.
proof fn lemma_count_sum_mono(s: Seq<int>, m: int, n: int)
    requires
        0 <= m <= n <= s.len(),
        forall|c: int| 0 <= c < s.len() ==> 0 <= #[trigger] s[c],
    ensures
        count_sum(s, m) <= count_sum(s, n),
    decreases n,
{
    if m < n {
        lemma_count_sum_mono(s, m, n - 1);
    }
}

/// Every value lies between 0 and `MAX_SCORE * t^depth`, and is never below
/// the score (times `t^depth`): staying is always open.
pub proof fn lemma_ev_bounds(h: Hand, counts: Seq<int>, t: int)
    requires
        deck_model(counts, t),
    ensures
        0 <= ev_num(h, counts, t) <= MAX_SCORE * power(t, depth(h)),
        ev_num(h, counts, t) >= h.spec_score() * power(t, depth(h)),
    decreases depth(h), 14nat,
{
    lemma_score_bounds(h);
    lemma_power_pos(t, depth(h));
    lemma_mul_bound(h.spec_score(), MAX_SCORE as int, power(t, depth(h)), power(t, depth(h)));
    if h.number_cards() < 7 {
        let m = MAX_SCORE * power(t, (depth(h) - 1) as nat);
        lemma_hit_bounds(h, counts, t, 13);
        lemma_count_sum_mono(counts, 0, 13);
        lemma_power_pos(t, (depth(h) - 1) as nat);
        assert(count_sum(counts, 13) * m <= t * m) by (nonlinear_arith)
            requires
                count_sum(counts, 13) <= t,
                m >= 0,
        ;
        assert(t * m == MAX_SCORE * power(t, depth(h))) by (nonlinear_arith)
            requires
                m == MAX_SCORE * power(t, (depth(h) - 1) as nat),
                power(t, depth(h)) == t * power(t, (depth(h) - 1) as nat),
        ;
    }
}

/// Hitting over the cards `0..k` is worth between 0 and the copies left of
/// those cards times `MAX_SCORE * t^(depth - 1)`.
pub proof fn lemma_hit_bounds(h: Hand, counts: Seq<int>, t: int, k: nat)
    requires
        deck_model(counts, t),
        k <= 13,
        h.number_cards() < 7,
    ensures
        0 <= hit_num(h, counts, t, k) <= count_sum(counts, k as int) * (MAX_SCORE * power(
            t,
            (depth(h) - 1) as nat,
        )),
    decreases depth(h), k,
{
    let m = MAX_SCORE * power(t, (depth(h) - 1) as nat);
    lemma_power_pos(t, (depth(h) - 1) as nat);
    if k > 0 {
        let c = (k - 1) as nat;
        lemma_hit_bounds(h, counts, t, c);
        let term = if c >= 13 || h.holds(c) {
            0
        } else {
            counts[c as int] * ev_num(h.spec_with(c), counts, t)
        };
        if c < 13 && !h.holds(c) {
            lemma_with_number_cards(h, c);
            lemma_ev_bounds(h.spec_with(c), counts, t);
            lemma_mul_bound(counts[c as int], counts[c as int], ev_num(h.spec_with(c), counts, t), m);
        }
        assert(term <= counts[c as int] * m);
        assert(count_sum(counts, c as int) * m + counts[c as int] * m == count_sum(
            counts,
            k as int,
        ) * m) by (nonlinear_arith)
            requires
                count_sum(counts, k as int) == count_sum(counts, c as int) + counts[c as int],
        ;
        assert(0 <= counts[c as int] * m) by (nonlinear_arith)
            requires
                0 <= counts[c as int],
                0 <= m,
        ;
    }
}

/// The advice hits exactly when the value it reports for hitting is above the
/// value it reports for staying, whatever the hand and the deck; it never
/// names a card. Staying is worth the hand's score, hitting never less, and
/// a hand of seven number cards stays.
pub proof fn lemma_advice_hits_when_better(hand: Hand, counts: Seq<int>)
    requires
        counts.len() == 22,
        forall|c: int| 0 <= c < 22 ==> 0 <= #[trigger] counts[c] <= full_deck()[c],
    ensures
        advice(hand, counts).hit matches Some(h) && advice(hand, counts).stay matches Some(s) && (
        advice(hand, counts).action is Hit <==> h.num > s.num * h.den),
        advice(hand, counts).action == Action::Hit(None) || advice(hand, counts).action
            == Action::Stay,
        advice(hand, counts).stay == Some(Ratio { num: hand.spec_score() as u128, den: 1 }),
        advice(hand, counts).hit matches Some(h) && h.den > 0 && h.num >= hand.spec_score() * h.den,
        hand.number_cards() >= 7 ==> advice(hand, counts).action == Action::Stay,
{
    let t = weight_base(counts);
    lemma_weight_base_le(counts);
    lemma_ev_bounds(hand, counts, t);
    lemma_score_bounds(hand);
    let d = depth(hand);
    lemma_power_bound(t, d);
    let den = power(t, d);
    let hit = ev_num(hand, counts, t);
    lemma_mul_bound(MAX_SCORE as int, MAX_SCORE as int, den, POWER_BOUND as int);
    lemma_mul_bound(hand.spec_score(), MAX_SCORE as int, den, POWER_BOUND as int);
    assert(MAX_SCORE * (POWER_BOUND as int) < u128::MAX);
    assert(hit as u128 == hit);
    assert(den as u128 == den);
    assert(hand.spec_score() as u128 == hand.spec_score());
}

} // verus!
