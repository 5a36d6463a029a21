//! A hand of cards, held as a bit mask: bit `c` is set when card `c` is held.
//!
//! Cards 0 to 12 are the number cards, 13 to 17 the modifiers +2 to +10,
//! 18 the x2 multiplier and 19 to 21 the action cards.
use vstd::prelude::*;
use crate::text::{
    all_digits, char_count, decimal, digit_words, lemma_char_count_add, lemma_decimal_digits,
    lemma_decimal_has_no, lemma_scan_word, lemma_scan_word_space, plus_words, push_decimal, space_words,
    split_scan,
};

verus! {

/// Bits of the thirteen number cards.
pub const NUMBER_MASK: u32 = 0x1FFF;

/// Whether bit `c` of `x` is set (`c` below 32).
pub open spec fn bit(x: u32, c: nat) -> bool {
    c < 32 && x & (1u32 << (c as u32)) != 0
}

/// The number of set bits of `x` among positions `0..n`.
pub open spec fn count_bits(x: u32, n: nat) -> nat
    decreases n,
{
    if n == 0 {
        0
    } else {
        count_bits(x, (n - 1) as nat) + if bit(x, (n - 1) as nat) {
            1nat
        } else {
            0nat
        }
    }
}

/// The sum of the positions `i < n` whose bit is set in `x`.
pub open spec fn bit_index_sum(x: u32, n: nat) -> nat
    decreases n,
{
    if n == 0 {
        0
    } else {
        bit_index_sum(x, (n - 1) as nat) + if bit(x, (n - 1) as nat) {
            (n - 1) as nat
        } else {
            0nat
        }
    }
}

/// The sum of the modifiers `+2 * v` for `v` in `1..=k` whose card `12 + v` is set.
pub open spec fn modifier_sum(x: u32, k: nat) -> nat
    decreases k,
{
    if k == 0 {
        0
    } else {
        modifier_sum(x, (k - 1) as nat) + if bit(x, 12 + k) {
            2 * k
        } else {
            0nat
        }
    }
}

/// The number cards of `x` below `n`, in order, each followed by a space.
pub open spec fn numbers_text(x: u32, n: nat) -> Seq<char>
    decreases n,
{
    if n == 0 {
        seq![]
    } else {
        numbers_text(x, (n - 1) as nat) + if bit(x, (n - 1) as nat) {
            decimal((n - 1) as nat).push(' ')
        } else {
            seq![]
        }
    }
}

/// The modifiers `+2 * v` of `x` for `v` in `1..=k`, in order, each written
/// with a plus sign and followed by a space.
pub open spec fn modifiers_text(x: u32, k: nat) -> Seq<char>
    decreases k,
{
    if k == 0 {
        seq![]
    } else {
        modifiers_text(x, (k - 1) as nat) + if bit(x, 12 + k) {
            seq!['+'] + decimal(2 * k).push(' ')
        } else {
            seq![]
        }
    }
}

/// How a hand is written: its number cards, its modifiers, then `x2`.
pub open spec fn cards_text(x: u32) -> Seq<char> {
    numbers_text(x, 13) + modifiers_text(x, 5) + if bit(x, 18) {
        seq!['x', '2']
    } else {
        seq![]
    }
}

/// A hand; bit `c` of the field is set when card `c` is held.
#[derive(Clone, Copy, PartialEq, Eq, Structural, Hash, Debug)]
pub struct Hand(pub u32);

impl Hand {
    /// Whether card `c` is in the hand.
    pub open spec fn holds(self, c: nat) -> bool {
        bit(self.0, c)
    }

    /// The number of number cards (0 to 12) in the hand.
    pub open spec fn number_cards(self) -> nat {
        count_bits(self.0, 13)
    }

    /// The sum of the number cards in the hand.
    pub open spec fn base_value(self) -> nat {
        bit_index_sum(self.0, 13)
    }

    /// The score: the number cards (doubled by x2), plus the modifiers, plus
    /// the bonus of a seven-card hand.
    pub open spec fn spec_score(self) -> int {
        (if self.holds(18) {
            2 * self.base_value() as int
        } else {
            self.base_value() as int
        }) + modifier_sum(self.0, 5) + if self.number_cards() == 7 {
            15int
        } else {
            0int
        }
    }

    /// The hand that `with(card)` gives: unchanged when it already holds seven
    /// number cards and not this card, else the card is added.
    pub open spec fn spec_with(self, card: nat) -> Hand {
        if self.number_cards() == 7 && !self.holds(card) {
            self
        } else {
            Hand(self.0 | (1u32 << (card as u32)))
        }
    }

    /// The empty hand.
    pub fn empty() -> (h: Hand)
        ensures
            h.0 == 0,
            forall|c: nat| !h.holds(c),
            h.number_cards() == 0,
    {
        proof {
            assert forall|c: nat| !Hand(0).holds(c) by {
                if c < 32 {
                    lemma_zero_has_no_bits(c as u32);
                }
            }
            lemma_count_bits_none(0, 13);
        }
        Hand(0)
    }

    /// The hand with `value` added (the hand itself is not changed); a hand of
    /// seven number cards takes no card it does not hold.
    pub fn with(self, value: usize) -> (h: Hand)
        requires
            value < 32,
        ensures
            h == self.spec_with(value as nat),
    {
        if self.len() == 7 && !self.contains(value) {
            self
        } else {
            Hand(self.0 | (1u32 << value))
        }
    }

    /// Whether card `value` is in the hand.
    pub fn contains(self, value: usize) -> (b: bool)
        requires
            value < 32,
        ensures
            b == self.holds(value as nat),
    {
        self.0 & (1u32 << value) != 0
    }

    /// The score: the sum of the number cards, doubled by the x2 card, plus
    /// the modifiers +2 to +10, plus 15 for a hand of seven number cards.
    pub fn score(self) -> (s: i32)
        ensures
            s == self.spec_score(),
            0 <= s <= MAX_SCORE,
    {
        let mut total: i32 = 0;
        for v in 0..13u32
            invariant
                total == bit_index_sum(self.0, v as nat),
                v <= 13,
        {
            proof {
                lemma_bit_index_sum_le(self.0, v as nat);
                lemma_triangle_le(v as nat);
            }
            if self.0 & (1u32 << v) != 0 {
                total += v as i32;
            }
        }
        proof {
            lemma_bit_index_sum_le(self.0, 13);
            lemma_triangle_le(13);
        }
        if (self.0 & (1u32 << 18u32)) != 0 {
            total *= 2;
        }
        for v in 1..6u32
            invariant
                1 <= v <= 6,
                total == (if self.holds(18) {
                    2 * self.base_value() as int
                } else {
                    self.base_value() as int
                }) + modifier_sum(self.0, (v - 1) as nat),
                self.base_value() <= 78,
        {
            proof {
                lemma_modifier_sum_le(self.0, (v - 1) as nat);
                assert(((v - 1) as nat) * ((v - 1) as nat + 1) <= 30) by (nonlinear_arith)
                    requires
                        1 <= v < 6,
                ;
            }
            if self.0 & (1u32 << (12 + v)) != 0 {
                total += (v * 2) as i32;
            }
        }
        proof {
            lemma_modifier_sum_le(self.0, 5);
            lemma_score_bounds(self);
        }
        if self.len() == 7 {
            total += 15;
        }
        total
    }

    /// The cards of the hand as text, e.g. `2 3 +2 +4 x2`.
    pub fn get_cards_in_hand(self) -> (s: String)
        ensures
            s@ == cards_text(self.0),
    {
        let mut output = String::new();
        proof {
            reveal_strlit(" ");
            reveal_strlit("+");
            reveal_strlit("x2");
        }
        for i in 0..13u32
            invariant
                output@ == numbers_text(self.0, i as nat),
        {
            proof {
                reveal_strlit(" ");
            }
            if (self.0 & (1u32 << i)) != 0 {
                push_decimal(&mut output, i);
                output.append(" ");
            }
            proof {
                assert(output@ =~= numbers_text(self.0, (i + 1) as nat));
            }
        }
        for i in 1..6u32
            invariant
                1 <= i <= 6,
                output@ == numbers_text(self.0, 13) + modifiers_text(self.0, (i - 1) as nat),
        {
            proof {
                reveal_strlit(" ");
                reveal_strlit("+");
            }
            if (self.0 & (1u32 << (i + 12))) != 0 {
                output.append("+");
                push_decimal(&mut output, 2 * i);
                output.append(" ");
            }
            proof {
                assert(output@ =~= numbers_text(self.0, 13) + modifiers_text(self.0, i as nat));
            }
        }
        if (self.0 & (1u32 << 18u32)) != 0 {
            output.append("x2");
        }
        proof {
            assert(output@ =~= cards_text(self.0));
        }
        output
    }

    /// The number of number cards (0 to 12) in the hand.
    pub fn len(self) -> (n: u32)
        ensures
            n == self.number_cards(),
            n <= 13,
    {
        let n = count_ones(self.0 & NUMBER_MASK);
        proof {
            lemma_count_masked(self.0);
            lemma_count_bits_le(self.0, 13);
        }
        n
    }
}

/// The largest score of any hand: all thirteen number cards doubled and all
/// modifiers (thirteen number cards earn no bonus).
pub const MAX_SCORE: i32 = 186;

/// `0 + 1 + ... + (n - 1)`.
pub open spec fn triangle(n: nat) -> nat
    decreases n,
{
    if n == 0 {
        0
    } else {
        triangle((n - 1) as nat) + (n - 1) as nat
    }
}

proof fn lemma_triangle_le(n: nat)
    requires
        n <= 13,
    ensures
        triangle(n) <= 78,
    decreases n,
{
    assert(triangle(13) == 78) by {
        reveal_with_fuel(triangle, 14);
    }
    if n < 13 {
        lemma_triangle_mono(n, 13);
    }
}

proof fn lemma_triangle_mono(m: nat, n: nat)
    requires
        m <= n,
    ensures
        triangle(m) <= triangle(n),
    decreases n,
{
    if m < n {
        lemma_triangle_mono(m, (n - 1) as nat);
    }
}

/// The positions of set bits below `n` sum to at most `0 + 1 + ... + (n - 1)`.
pub proof fn lemma_bit_index_sum_le(x: u32, n: nat)
    ensures
        bit_index_sum(x, n) <= triangle(n),
    decreases n,
{
    if n > 0 {
        lemma_bit_index_sum_le(x, (n - 1) as nat);
    }
}

/// The modifiers of cards `13..=12 + k` add up to at most `k * (k + 1)`.
pub proof fn lemma_modifier_sum_le(x: u32, k: nat)
    ensures
        modifier_sum(x, k) <= k * (k + 1),
    decreases k,
{
    if k > 0 {
        lemma_modifier_sum_le(x, (k - 1) as nat);
        assert(((k - 1) as nat) * (k as nat) + 2 * k == k * (k + 1)) by (nonlinear_arith);
    }
}

/// Every hand scores between 0 and `MAX_SCORE`; a hand of at most seven
/// number cards, as `with` builds them, scores at most 171 (the seven highest
/// number cards doubled, all modifiers and the bonus).
pub proof fn lemma_score_bounds(h: Hand)
    ensures
        0 <= h.spec_score() <= MAX_SCORE,
        h.number_cards() <= 7 ==> h.spec_score() <= 171,
{
    lemma_bit_index_sum_le(h.0, 13);
    lemma_triangle_le(13);
    lemma_modifier_sum_le(h.0, 5);
    lemma_bit_index_sum_top(h.0, 13);
    lemma_count_bits_le(h.0, 13);
    let k = h.number_cards() as int;
    if k <= 7 {
        assert(k * (25 - k) <= 126) by (nonlinear_arith)
            requires
                0 <= k <= 7,
        ;
    }
    if k == 7 {
        assert(k * (25 - k) == 126) by (nonlinear_arith)
            requires
                k == 7,
        ;
    }
}

/// `k` set bits below `n` sum to at most the `k` highest positions:
/// twice the sum is at most `k * (2n - k - 1)`.
proof fn lemma_bit_index_sum_top(x: u32, n: nat)
    ensures
        2 * bit_index_sum(x, n) <= count_bits(x, n) * (2 * n - count_bits(x, n) - 1),
    decreases n,
{
    if n > 0 {
        let m = (n - 1) as nat;
        lemma_bit_index_sum_top(x, m);
        lemma_count_bits_le(x, m);
        let k = count_bits(x, m) as int;
        let b = bit_index_sum(x, m) as int;
        let kn = count_bits(x, n) as int;
        let bn = bit_index_sum(x, n) as int;
        assert(kn == k + if bit(x, m) { 1int } else { 0int });
        assert(bn == b + if bit(x, m) { m as int } else { 0int });
        if bit(x, m) {
            assert(2 * bn <= kn * (2 * n - kn - 1)) by (nonlinear_arith)
                requires
                    2 * b <= k * (2 * m - k - 1),
                    n == m + 1,
                    0 <= k <= m,
                    kn == k + 1,
                    bn == b + m,
            ;
        } else {
            assert(2 * bn <= kn * (2 * n - kn - 1)) by (nonlinear_arith)
                requires
                    2 * b <= k * (2 * m - k - 1),
                    n == m + 1,
                    0 <= k <= m,
                    kn == k,
                    bn == b,
            ;
        }
    } else {
        assert(count_bits(x, n) == 0 && bit_index_sum(x, n) == 0);
    }
}

/// `u32::count_ones`: the number of ones in the binary representation.
#[verifier::external_body]
fn count_ones(x: u32) -> (n: u32)
    ensures
        n == count_bits(x, 32),
{
    x.count_ones()
}

/// Setting bit `v` sets exactly that bit.
proof fn lemma_bit_or(x: u32, v: u32, i: u32)
    by (bit_vector)
    requires
        v < 32,
        i < 32,
    ensures
        ((x | (1u32 << v)) & (1u32 << i) != 0) == (x & (1u32 << i) != 0 || i == v),
{
}

/// Which cards `spec_with` leaves in the hand.
pub proof fn lemma_with_holds(h: Hand, v: nat, c: nat)
    requires
        v < 32,
    ensures
        h.spec_with(v).holds(c) == (h.holds(c) || (c == v && !(h.number_cards() == 7
            && !h.holds(v)))),
{
    if c < 32 && !(h.number_cards() == 7 && !h.holds(v)) {
        lemma_bit_or(h.0, v as u32, c as u32);
    }
}

/// Adding bit `v` to `x` counts one more bit below `n` when `v` is below `n`
/// and was not set.
pub proof fn lemma_count_or(x: u32, v: nat, n: nat)
    requires
        v < 32,
        n <= 32,
    ensures
        count_bits(x | (1u32 << (v as u32)), n) == count_bits(x, n) + if v < n && !bit(x, v) {
            1nat
        } else {
            0nat
        },
        bit_index_sum(x | (1u32 << (v as u32)), n) == bit_index_sum(x, n) + if v < n && !bit(
            x,
            v,
        ) {
            v
        } else {
            0nat
        },
    decreases n,
{
    if n > 0 {
        lemma_count_or(x, v, (n - 1) as nat);
        lemma_bit_or(x, v as u32, (n - 1) as u32);
    }
}

/// Adding bit `v` to `x` adds the modifier of card `v` when it was not set.
proof fn lemma_modifier_or(x: u32, v: nat, k: nat)
    requires
        v < 32,
        k <= 5,
    ensures
        modifier_sum(x | (1u32 << (v as u32)), k) == modifier_sum(x, k) + if 13 <= v <= 12 + k
            && !bit(x, v) {
            2 * (v - 12) as nat
        } else {
            0nat
        },
    decreases k,
{
    if k > 0 {
        lemma_modifier_or(x, v, (k - 1) as nat);
        lemma_bit_or(x, v as u32, (12 + k) as u32);
    }
}

/// A card already held leaves the hand unchanged.
pub proof fn lemma_with_held_is_identity(h: Hand, v: nat)
    requires
        v < 32,
        h.holds(v),
    ensures
        h.spec_with(v) == h,
{
    let x = h.0;
    let w = v as u32;
    assert(x | (1u32 << w) == x) by (bit_vector)
        requires
            x & (1u32 << w) != 0,
            w < 32,
    ;
}

/// How `spec_with` changes the number of number cards: one more when a number
/// card not held is taken.
pub proof fn lemma_with_number_cards(h: Hand, v: nat)
    requires
        v < 32,
    ensures
        h.spec_with(v).number_cards() == h.number_cards() + if v < 13 && !h.holds(v) && h.number_cards()
            != 7 {
            1nat
        } else {
            0nat
        },
{
    if !(h.number_cards() == 7 && !h.holds(v)) {
        lemma_count_or(h.0, v, 13);
    }
}

/// A hand never grows past seven number cards.
pub proof fn lemma_with_keeps_at_most_seven(h: Hand, v: nat)
    requires
        v < 32,
        h.number_cards() <= 7,
    ensures
        h.spec_with(v).number_cards() <= 7,
{
    lemma_with_number_cards(h, v);
}

/// The x2 card, taken by a hand of fewer than seven number cards that does
/// not hold it, adds the sum of the number cards once more (it doubles the
/// number cards and nothing else).
pub proof fn lemma_times_two_adds_base(h: Hand)
    requires
        h.number_cards() < 7,
        !h.holds(18),
    ensures
        h.spec_with(18).spec_score() == h.spec_score() + h.base_value(),
        h.spec_with(18).base_value() == h.base_value(),
{
    lemma_count_or(h.0, 18, 13);
    lemma_modifier_or(h.0, 18, 5);
    lemma_with_holds(h, 18, 18);
}

/// A modifier card (13 to 17 for +2 to +10), taken by a hand of fewer than
/// seven number cards that does not hold it, adds its value to the score.
pub proof fn lemma_modifier_adds_value(h: Hand, m: nat)
    requires
        13 <= m <= 17,
        h.number_cards() < 7,
        !h.holds(m),
    ensures
        h.spec_with(m).spec_score() == h.spec_score() + 2 * (m - 12),
{
    lemma_count_or(h.0, m, 13);
    lemma_modifier_or(h.0, m, 5);
    lemma_with_holds(h, m, 18);
}

/// A number card not held, taken by a hand of fewer than six number cards,
/// adds its value to the score, twice with the x2 card.
pub proof fn lemma_number_card_adds_value(h: Hand, n: nat)
    requires
        n < 13,
        h.number_cards() < 6,
        !h.holds(n),
    ensures
        h.spec_with(n).spec_score() == h.spec_score() + if h.holds(18) {
            2 * n as int
        } else {
            n as int
        },
{
    lemma_count_or(h.0, n, 13);
    lemma_modifier_or(h.0, n, 5);
    lemma_with_holds(h, n, 18);
}

/// Taking a card never lowers a hand's score, whatever the card and the hand:
/// a number card or a modifier adds to it, the x2 card doubles the number
/// cards, and the seven-card bonus is never lost, since a hand of seven number
/// cards takes no card that it does not hold.
pub proof fn lemma_with_never_lowers_score(h: Hand, v: nat)
    requires
        v < 32,
    ensures
        h.spec_with(v).spec_score() >= h.spec_score(),
{
    if !(h.number_cards() == 7 && !h.holds(v)) {
        lemma_count_or(h.0, v, 13);
        lemma_modifier_or(h.0, v, 5);
        lemma_with_holds(h, v, 18);
    }
}

/// How the text of a hand is marked: one space after each number card and
/// each modifier (so one per held card below 18), one plus sign per modifier,
/// and `x2` at the end exactly when the x2 card is held.
pub proof fn lemma_cards_text_marks(h: Hand)
    ensures
        char_count(cards_text(h.0), ' ') == count_bits(h.0, 18),
        char_count(cards_text(h.0), '+') == count_bits(h.0, 18) - count_bits(h.0, 13),
        char_count(cards_text(h.0), 'x') == if h.holds(18) {
            1nat
        } else {
            0nat
        },
        h.holds(18) == (cards_text(h.0).len() >= 2 && cards_text(h.0).subrange(
            cards_text(h.0).len() - 2,
            cards_text(h.0).len() as int,
        ) == seq!['x', '2']),
{
    let x = h.0;
    let nums = numbers_text(x, 13);
    let mods = modifiers_text(x, 5);
    let tail: Seq<char> = if bit(x, 18) {
        seq!['x', '2']
    } else {
        seq![]
    };
    lemma_numbers_text_marks(x, 13);
    lemma_modifiers_text_marks(x, 5);
    lemma_char_count_add(nums, mods, ' ');
    lemma_char_count_add(nums, mods, '+');
    lemma_char_count_add(nums, mods, 'x');
    lemma_char_count_add(nums + mods, tail, ' ');
    lemma_char_count_add(nums + mods, tail, '+');
    lemma_char_count_add(nums + mods, tail, 'x');
    let t = cards_text(x);
    assert(t == nums + mods + tail);
    assert(char_count(mods, ' ') == count_bits(x, 18) - count_bits(x, 13));
    if bit(x, 18) {
        assert(seq!['x', '2'].drop_last() =~= seq!['x']);
        assert(seq!['x'].drop_last() =~= Seq::<char>::empty());
        assert(char_count(Seq::<char>::empty(), ' ') == 0);
        assert(char_count(Seq::<char>::empty(), '+') == 0);
        assert(char_count(Seq::<char>::empty(), 'x') == 0);
        assert(char_count(seq!['x'], ' ') == 0);
        assert(char_count(seq!['x'], '+') == 0);
        assert(char_count(seq!['x'], 'x') == 1);
        assert(char_count(tail, 'x') == 1);
        assert(char_count(tail, ' ') == 0);
        assert(char_count(tail, '+') == 0);
        assert(t.subrange(t.len() - 2, t.len() as int) =~= seq!['x', '2']);
    } else {
        assert(char_count(tail, ' ') == 0);
        assert(char_count(tail, '+') == 0);
        assert(char_count(tail, 'x') == 0);
        assert(t =~= nums + mods);
        if t.len() >= 2 {
            if mods.len() > 0 {
                assert(t.last() == mods.last());
            } else {
                assert(t.last() == nums.last());
            }
            assert(t.subrange(t.len() - 2, t.len() as int)[1] == t.last());
        }
    }
}

/// The words of a hand's text, split at spaces: one per held card below 18
/// and `x2` last when the x2 card is held; the words made of digits alone are
/// the number cards, those that begin with a plus sign the modifiers.
pub proof fn lemma_cards_text_words(h: Hand)
    ensures
        space_words(cards_text(h.0)).len() == count_bits(h.0, 18) + if h.holds(18) {
            1nat
        } else {
            0nat
        },
        digit_words(space_words(cards_text(h.0))) == h.number_cards(),
        plus_words(space_words(cards_text(h.0))) == count_bits(h.0, 18) - count_bits(h.0, 13),
        h.holds(18) ==> space_words(cards_text(h.0)).last() == seq!['x', '2'],
{
    let x = h.0;
    let body = numbers_text(x, 13) + modifiers_text(x, 5);
    lemma_modifiers_text_words(x, 5);
    let ws = split_scan(body).0;
    if bit(x, 18) {
        let w = seq!['x', '2'];
        assert(cards_text(x) == body + w);
        lemma_scan_word(body, w);
        assert(split_scan(body).1 + w =~= w);
        assert(space_words(cards_text(x)) == ws.push(w));
        assert(ws.push(w).drop_last() =~= ws);
        assert(!all_digits(w)) by {
            assert(!crate::text::is_digit(w[0]));
        }
    } else {
        assert(cards_text(x) =~= body);
    }
}

/// The words of the number cards' text below `n`.
proof fn lemma_numbers_text_words(x: u32, n: nat)
    requires
        n <= 13,
    ensures
        split_scan(numbers_text(x, n)).1.len() == 0,
        split_scan(numbers_text(x, n)).0.len() == count_bits(x, n),
        digit_words(split_scan(numbers_text(x, n)).0) == count_bits(x, n),
        plus_words(split_scan(numbers_text(x, n)).0) == 0,
    decreases n,
{
    if n > 0 {
        let m = (n - 1) as nat;
        lemma_numbers_text_words(x, m);
        let a = numbers_text(x, m);
        if bit(x, m) {
            let w = decimal(m);
            lemma_decimal_digits(m);
            assert(numbers_text(x, n) =~= (a + w).push(' '));
            lemma_scan_word_space(a, w);
            let ws = split_scan(a).0;
            assert(ws.push(w).drop_last() =~= ws);
            assert(crate::text::is_digit(w[0]));
        } else {
            assert(numbers_text(x, n) =~= a);
        }
    }
}

/// The words of the number cards' and the modifiers' text, for `v` in `1..=k`.
proof fn lemma_modifiers_text_words(x: u32, k: nat)
    requires
        k <= 5,
    ensures
        split_scan(numbers_text(x, 13) + modifiers_text(x, k)).1.len() == 0,
        split_scan(numbers_text(x, 13) + modifiers_text(x, k)).0.len() == count_bits(x, 13 + k),
        digit_words(split_scan(numbers_text(x, 13) + modifiers_text(x, k)).0) == count_bits(x, 13),
        plus_words(split_scan(numbers_text(x, 13) + modifiers_text(x, k)).0) == count_bits(x, 13 + k)
            - count_bits(x, 13),
    decreases k,
{
    let nums = numbers_text(x, 13);
    if k == 0 {
        lemma_numbers_text_words(x, 13);
        assert(nums + modifiers_text(x, 0) =~= nums);
    } else {
        let j = (k - 1) as nat;
        lemma_modifiers_text_words(x, j);
        lemma_count_bits_mono(x, 13, 13 + j);
        let a = nums + modifiers_text(x, j);
        if bit(x, 12 + k) {
            let d = decimal(2 * k);
            let w = seq!['+'] + d;
            lemma_decimal_digits(2 * k);
            assert forall|i: int| 0 <= i < w.len() implies w[i] != ' ' by {
                if i > 0 {
                    assert(w[i] == d[i - 1]);
                    assert(crate::text::is_digit(d[i - 1]));
                }
            }
            assert(nums + modifiers_text(x, k) =~= (a + w).push(' '));
            lemma_scan_word_space(a, w);
            let ws = split_scan(a).0;
            assert(ws.push(w).drop_last() =~= ws);
            assert(!all_digits(w)) by {
                assert(!crate::text::is_digit(w[0]));
            }
        } else {
            assert(nums + modifiers_text(x, k) =~= a);
        }
    }
}

/// The marks of the number cards' text below `n`.
proof fn lemma_numbers_text_marks(x: u32, n: nat)
    requires
        n <= 13,
    ensures
        char_count(numbers_text(x, n), ' ') == count_bits(x, n),
        char_count(numbers_text(x, n), '+') == 0,
        char_count(numbers_text(x, n), 'x') == 0,
        numbers_text(x, n).len() == 0 || numbers_text(x, n).last() == ' ',
    decreases n,
{
    if n == 0 {
        assert(char_count(Seq::<char>::empty(), ' ') == 0);
        assert(char_count(Seq::<char>::empty(), '+') == 0);
        assert(char_count(Seq::<char>::empty(), 'x') == 0);
    } else {
        let m = (n - 1) as nat;
        lemma_numbers_text_marks(x, m);
        let piece: Seq<char> = if bit(x, m) {
            decimal(m).push(' ')
        } else {
            seq![]
        };
        if bit(x, m) {
            assert(piece.drop_last() =~= decimal(m));
            lemma_decimal_has_no(m, ' ');
            lemma_decimal_has_no(m, '+');
            lemma_decimal_has_no(m, 'x');
        } else {
            assert(char_count(piece, ' ') == 0);
            assert(char_count(piece, '+') == 0);
            assert(char_count(piece, 'x') == 0);
        }
        lemma_char_count_add(numbers_text(x, m), piece, ' ');
        lemma_char_count_add(numbers_text(x, m), piece, '+');
        lemma_char_count_add(numbers_text(x, m), piece, 'x');
        assert(numbers_text(x, n) == numbers_text(x, m) + piece);
        if !bit(x, m) {
            assert(numbers_text(x, n) =~= numbers_text(x, m));
        }
    }
}

/// The marks of the modifiers' text for `v` in `1..=k`.
proof fn lemma_modifiers_text_marks(x: u32, k: nat)
    requires
        k <= 5,
    ensures
        char_count(modifiers_text(x, k), ' ') == count_bits(x, 13 + k) - count_bits(x, 13),
        char_count(modifiers_text(x, k), '+') == count_bits(x, 13 + k) - count_bits(x, 13),
        char_count(modifiers_text(x, k), 'x') == 0,
        modifiers_text(x, k).len() == 0 || modifiers_text(x, k).last() == ' ',
    decreases k,
{
    if k == 0 {
        assert(char_count(Seq::<char>::empty(), ' ') == 0);
        assert(char_count(Seq::<char>::empty(), '+') == 0);
        assert(char_count(Seq::<char>::empty(), 'x') == 0);
    } else {
        let j = (k - 1) as nat;
        lemma_modifiers_text_marks(x, j);
        let piece: Seq<char> = if bit(x, 12 + k) {
            seq!['+'] + decimal(2 * k).push(' ')
        } else {
            seq![]
        };
        if bit(x, 12 + k) {
            let d = decimal(2 * k);
            lemma_decimal_has_no(2 * k, ' ');
            lemma_decimal_has_no(2 * k, '+');
            lemma_decimal_has_no(2 * k, 'x');
            assert(d.push(' ').drop_last() =~= d);
            assert(seq!['+'].drop_last() =~= Seq::<char>::empty());
            assert(char_count(Seq::<char>::empty(), ' ') == 0);
            assert(char_count(Seq::<char>::empty(), '+') == 0);
            assert(char_count(Seq::<char>::empty(), 'x') == 0);
            lemma_char_count_add(seq!['+'], d.push(' '), ' ');
            lemma_char_count_add(seq!['+'], d.push(' '), '+');
            lemma_char_count_add(seq!['+'], d.push(' '), 'x');
        } else {
            assert(char_count(piece, ' ') == 0);
            assert(char_count(piece, '+') == 0);
            assert(char_count(piece, 'x') == 0);
        }
        lemma_char_count_add(modifiers_text(x, j), piece, ' ');
        lemma_char_count_add(modifiers_text(x, j), piece, '+');
        lemma_char_count_add(modifiers_text(x, j), piece, 'x');
        assert(modifiers_text(x, k) == modifiers_text(x, j) + piece);
        if !bit(x, 12 + k) {
            assert(modifiers_text(x, k) =~= modifiers_text(x, j));
        }
        assert(count_bits(x, 13 + k) == count_bits(x, 13 + j) + if bit(x, 12 + k) {
            1nat
        } else {
            0nat
        });
        lemma_count_bits_mono(x, 13, 13 + j);
    }
}

/// Counting over more positions counts at least as many bits.
proof fn lemma_count_bits_mono(x: u32, m: nat, n: nat)
    requires
        m <= n,
    ensures
        count_bits(x, m) <= count_bits(x, n),
    decreases n,
{
    if m < n {
        lemma_count_bits_mono(x, m, (n - 1) as nat);
    }
}

/// Whether the hand holds number cards only.
pub open spec fn numbers_only(h: Hand) -> bool {
    forall|c: nat| 13 <= c < 32 ==> !#[trigger] h.holds(c)
}

/// A hand of number cards scores their sum, plus 15 with seven of them.
pub proof fn lemma_number_hand_score(h: Hand)
    requires
        numbers_only(h),
    ensures
        h.spec_score() == h.base_value() + if h.number_cards() == 7 {
            15int
        } else {
            0int
        },
{
    lemma_modifier_sum_zero(h, 5);
    assert(!h.holds(18));
}

proof fn lemma_modifier_sum_zero(h: Hand, k: nat)
    requires
        numbers_only(h),
        k <= 5,
    ensures
        modifier_sum(h.0, k) == 0,
    decreases k,
{
    if k > 0 {
        lemma_modifier_sum_zero(h, (k - 1) as nat);
        assert(!h.holds(12 + k));
    }
}

/// The x2 card doubles the score of a hand of fewer than seven number cards.
pub proof fn lemma_times_two_doubles_number_hand(h: Hand)
    requires
        numbers_only(h),
        h.number_cards() < 7,
    ensures
        h.spec_with(18).spec_score() == 2 * h.spec_score(),
{
    lemma_number_hand_score(h);
    lemma_times_two_adds_base(h);
}

/// For a hand of fewer than seven number cards and a modifier: adding the x2
/// card after the modifier raises the score by the number cards' score only.
pub proof fn lemma_times_two_skips_modifiers(h: Hand, m: nat)
    requires
        numbers_only(h),
        h.number_cards() < 7,
        13 <= m <= 17,
    ensures
        h.spec_with(m).spec_with(18).spec_score() - h.spec_with(m).spec_score() == h.spec_score(),
{
    lemma_number_hand_score(h);
    lemma_with_number_cards(h, m);
    lemma_count_or(h.0, m, 13);
    lemma_with_holds(h, m, 18);
    lemma_times_two_adds_base(h.spec_with(m));
}

proof fn lemma_zero_has_no_bits(c: u32)
    by (bit_vector)
    requires
        c < 32,
    ensures
        0u32 & (1u32 << c) == 0,
{
}

proof fn lemma_mask_bit(x: u32, i: u32)
    by (bit_vector)
    requires
        i < 32,
    ensures
        ((x & 0x1FFFu32) & (1u32 << i) != 0) == (i < 13 && x & (1u32 << i) != 0),
{
}

/// Counting bits of the masked value counts the number cards only.
proof fn lemma_count_masked(x: u32)
    ensures
        count_bits(x & NUMBER_MASK, 32) == count_bits(x, 13),
{
    lemma_count_masked_prefix(x, 32);
}

proof fn lemma_count_masked_prefix(x: u32, n: nat)
    requires
        n <= 32,
    ensures
        count_bits(x & NUMBER_MASK, n) == count_bits(x, if n <= 13 {
            n
        } else {
            13
        }),
    decreases n,
{
    if n > 0 {
        lemma_count_masked_prefix(x, (n - 1) as nat);
        lemma_mask_bit(x, (n - 1) as u32);
    }
}

pub proof fn lemma_count_bits_le(x: u32, n: nat)
    ensures
        count_bits(x, n) <= n,
    decreases n,
{
    if n > 0 {
        lemma_count_bits_le(x, (n - 1) as nat);
    }
}

pub(crate) proof fn lemma_count_bits_none(x: u32, n: nat)
    requires
        x == 0,
        n <= 32,
    ensures
        count_bits(x, n) == 0,
    decreases n,
{
    if n > 0 {
        lemma_count_bits_none(x, (n - 1) as nat);
        lemma_zero_has_no_bits((n - 1) as u32);
    }
}

} // verus!
