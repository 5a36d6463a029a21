//! Reading the player's words: which built-in strategy a seat spec names,
//! and which action a typed command asks for.
use vstd::prelude::*;
use crate::action::Action;
use crate::text::{all_digits, decimal, is_digit, lemma_decimal_digits};

verus! {

/// The value of the decimal digits `s`.
pub open spec fn digits_value(s: Seq<char>) -> int
    decreases s.len(),
{
    if s.len() == 0 {
        0
    } else {
        digits_value(s.drop_last()) * 10 + (s.last() as int - 48)
    }
}

/// The integer that `s` writes in decimal: digits, optionally after one
/// `+` or `-`.
pub open spec fn decimal_value(s: Seq<char>) -> Option<int> {
    if s.len() > 0 && s[0] == '-' && all_digits(s.drop_first()) {
        Some(-digits_value(s.drop_first()))
    } else if s.len() > 0 && s[0] == '+' && all_digits(s.drop_first()) {
        Some(digits_value(s.drop_first()))
    } else if all_digits(s) {
        Some(digits_value(s))
    } else {
        None
    }
}

/// What `str::parse::<i32>` gives: the value `s` writes in decimal when it
/// fits.
pub open spec fn spec_parse_i32(s: Seq<char>) -> Option<i32> {
    match decimal_value(s) {
        Some(v) => if i32::MIN <= v <= i32::MAX {
            Some(v as i32)
        } else {
            None
        },
        None => None,
    }
}

/// What `str::parse::<usize>` gives: the value `s` writes in decimal, without
/// a minus sign, when it fits.
pub open spec fn spec_parse_usize(s: Seq<char>) -> Option<usize> {
    if s.len() > 0 && s[0] == '-' {
        None
    } else {
        match decimal_value(s) {
            Some(v) => if 0 <= v <= usize::MAX {
                Some(v as usize)
            } else {
                None
            },
            None => None,
        }
    }
}

/// `str::parse::<i32>`, its error dropped: an optional sign and decimal
/// digits, the value in range (as the standard library documents it).
#[verifier::external_body]
fn parse_i32(s: &str) -> (r: Option<i32>)
    ensures
        r == spec_parse_i32(s@),
{
    s.parse::<i32>().ok()
}

/// `str::parse::<usize>`, its error dropped: an optional `+` and decimal
/// digits, the value in range (as the standard library documents it).
#[verifier::external_body]
fn parse_usize(s: &str) -> (r: Option<usize>)
    ensures
        r == spec_parse_usize(s@),
{
    s.parse::<usize>().ok()
}

/// A built-in strategy.
#[derive(Clone, Copy, PartialEq, Eq, Structural, Debug)]
pub enum StrategyKind {
    ExpectedValue,
    Threshold(i32),
}

/// Why a seat spec names no strategy.
#[derive(Clone, Copy, PartialEq, Eq, Structural, Debug)]
pub enum SpecError {
    /// `threshold` followed by something that is not a number.
    BadThreshold,
    /// Neither `expected_value` nor `threshold<N>`.
    Unknown,
}

/// The prefix of a threshold spec.
pub open spec fn threshold_prefix() -> Seq<char> {
    "threshold"@
}

/// The strategy that a seat spec names: `expected_value`, or `threshold`
/// followed by the cutoff.
pub open spec fn spec_strategy_kind(spec: Seq<char>) -> Result<StrategyKind, SpecError> {
    if spec == "expected_value"@ {
        Ok(StrategyKind::ExpectedValue)
    } else if spec.len() >= 9 && spec.subrange(0, 9) == threshold_prefix() {
        match spec_parse_i32(spec.subrange(9, spec.len() as int)) {
            Some(n) => Ok(StrategyKind::Threshold(n)),
            None => Err(SpecError::BadThreshold),
        }
    } else {
        Err(SpecError::Unknown)
    }
}

/// Whether two texts are equal.
fn same_text(a: &str, b: &str) -> (r: bool)
    ensures
        r == (a@ == b@),
{
    let n = a.unicode_len();
    if n != b.unicode_len() {
        return false;
    }
    let mut i: usize = 0;
    while i < n
        invariant
            n == a@.len(),
            n == b@.len(),
            i <= n,
            forall|k: int| 0 <= k < i ==> a@[k] == b@[k],
        decreases n - i,
    {
        if a.get_char(i) != b.get_char(i) {
            return false;
        }
        i += 1;
    }
    proof {
        assert(a@ =~= b@);
    }
    true
}

/// The strategy that a seat spec names.
pub fn parse_strategy_spec(spec: &str) -> (r: Result<StrategyKind, SpecError>)
    ensures
        r == spec_strategy_kind(spec@),
{
    proof {
        reveal_strlit("threshold");
    }
    if same_text(spec, "expected_value") {
        return Ok(StrategyKind::ExpectedValue);
    }
    let n = spec.unicode_len();
    if n >= 9 {
        let head = spec.substring_char(0, 9);
        if same_text(head, "threshold") {
            let cutoff = spec.substring_char(9, n);
            return match parse_i32(cutoff) {
                Some(c) => Ok(StrategyKind::Threshold(c)),
                None => Err(SpecError::BadThreshold),
            };
        }
    }
    Err(SpecError::Unknown)
}

/// The action that a command asks for: `h` or `hit`, with the number of the
/// card dealt at the table when the next word reads as one; `s` or `stay`.
pub open spec fn spec_command_action(command: Seq<char>, argument: Option<Seq<char>>) -> Option<
    Action,
> {
    if command == "h"@ || command == "hit"@ {
        Some(
            Action::Hit(
                match argument {
                    Some(a) => spec_parse_usize(a),
                    None => None,
                },
            ),
        )
    } else if command == "s"@ || command == "stay"@ {
        Some(Action::Stay)
    } else {
        None
    }
}

/// Decimal digits read back as the number they write.
pub proof fn lemma_digits_value_decimal(n: nat)
    ensures
        digits_value(decimal(n)) == n,
    decreases n,
{
    let d = n % 10;
    assert(crate::text::digit_char(d) as int == 48 + d);
    if n >= 10 {
        lemma_digits_value_decimal(n / 10);
        assert(decimal(n).drop_last() =~= decimal(n / 10));
        assert(decimal(n).last() == crate::text::digit_char(d));
        assert((n / 10) * 10 + d == n);
    } else {
        assert(decimal(n).drop_last() =~= Seq::<char>::empty());
        assert(digits_value(Seq::<char>::empty()) == 0);
        assert(decimal(n).last() == crate::text::digit_char(d));
    }
}

/// The decimal text of a number parses back to that number, as an `i32`
/// and as a `usize`, and `threshold` followed by it names the threshold
/// strategy with that cutoff.
pub proof fn lemma_parse_decimal(n: nat)
    ensures
        n <= i32::MAX ==> spec_parse_i32(decimal(n)) == Some(n as i32),
        n <= usize::MAX ==> spec_parse_usize(decimal(n)) == Some(n as usize),
        n <= i32::MAX ==> spec_strategy_kind(threshold_prefix() + decimal(n)) == Ok::<
            StrategyKind,
            SpecError,
        >(StrategyKind::Threshold(n as i32)),
{
    lemma_digits_value_decimal(n);
    lemma_decimal_digits(n);
    let d = decimal(n);
    assert(is_digit(d[0]));
    let s = threshold_prefix() + d;
    reveal_strlit("threshold");
    reveal_strlit("expected_value");
    assert(s.subrange(0, 9) =~= threshold_prefix());
    assert(s.subrange(9, s.len() as int) =~= d);
    assert(s.len() != "expected_value"@.len() || s[9] != "expected_value"@[9]) by {
        assert(s[9] == d[0]);
    }
}

/// `h` and `hit` are one command, and `s` and `stay` another: for every
/// argument, `hit` asks for what `h` asks for, a hit (of the card the argument
/// reads as, if it reads as one), and `stay` for what `s` asks for, staying,
/// whatever follows.
pub proof fn lemma_command_words(argument: Option<Seq<char>>)
    ensures
        spec_command_action("hit"@, argument) == spec_command_action("h"@, argument),
        spec_command_action("h"@, argument) == Some(
            Action::Hit(
                match argument {
                    Some(a) => spec_parse_usize(a),
                    None => None,
                },
            ),
        ),
        spec_command_action("stay"@, argument) == spec_command_action("s"@, argument),
        spec_command_action("s"@, argument) == Some(Action::Stay),
        forall|w: Seq<char>|
            w != "h"@ && w != "hit"@ && w != "s"@ && w != "stay"@ ==> #[trigger] spec_command_action(
                w,
                argument,
            ) is None,
{
    reveal_strlit("h");
    reveal_strlit("hit");
    reveal_strlit("s");
    reveal_strlit("stay");
    assert("s"@[0] != "h"@[0]);
    assert("s"@.len() != "hit"@.len());
    assert("stay"@.len() != "h"@.len());
    assert("stay"@.len() != "hit"@.len());
}

/// The action that a command (its first word, and the word after it if any)
/// asks for; `None` when the command is not understood.
pub fn command_action(command: &str, argument: Option<&str>) -> (r: Option<Action>)
    ensures
        r == spec_command_action(
            command@,
            match argument {
                Some(a) => Some(a@),
                None => None,
            },
        ),
{
    if same_text(command, "h") || same_text(command, "hit") {
        let provided_card = match argument {
            Some(val) => parse_usize(val),
            None => None,
        };
        Some(Action::Hit(provided_card))
    } else if same_text(command, "s") || same_text(command, "stay") {
        Some(Action::Stay)
    } else {
        None
    }
}

/// Whether `c` has the Unicode `White_Space` property (named here, not
/// listed).
pub uninterp spec fn white_space(c: char) -> bool;

/// The text that `str::to_lowercase` gives for `s` (the Unicode lowercase
/// mapping, named here, not written out).
pub uninterp spec fn lowercased(s: Seq<char>) -> Seq<char>;

/// `s` without its leading white space.
pub open spec fn trim_start(s: Seq<char>) -> Seq<char>
    decreases s.len(),
{
    if s.len() > 0 && white_space(s[0]) {
        trim_start(s.drop_first())
    } else {
        s
    }
}

/// `s` without its trailing white space.
pub open spec fn trim_end(s: Seq<char>) -> Seq<char>
    decreases s.len(),
{
    if s.len() > 0 && white_space(s.last()) {
        trim_end(s.drop_last())
    } else {
        s
    }
}

/// `s` without its leading and trailing white space.
pub open spec fn trimmed(s: Seq<char>) -> Seq<char> {
    trim_end(trim_start(s))
}

/// `char::is_whitespace`: whether `c` has the `White_Space` property.
#[verifier::external_body]
fn is_white_space(c: char) -> (b: bool)
    ensures
        b == white_space(c),
{
    c.is_whitespace()
}

/// `str::trim`: `s` without leading and trailing characters of the
/// `White_Space` property, as the standard library documents it.
#[verifier::external_body]
fn trim(s: &str) -> (r: &str)
    ensures
        r@ == trimmed(s@),
{
    s.trim()
}

/// `str::to_lowercase`: the Unicode lowercase of `s`, as a new string; what
/// it is on given text is left to the name `lowercased`.
#[verifier::external_body]
fn to_lowercase(s: &str) -> (r: String)
    ensures
        r@ == lowercased(s@),
{
    s.to_lowercase()
}

/// The first position at or after `i` that is not white space (the length
/// when there is none).
pub open spec fn skip_white(s: Seq<char>, i: int) -> int
    decreases s.len() - i,
{
    if 0 <= i < s.len() && white_space(s[i]) {
        skip_white(s, i + 1)
    } else {
        i
    }
}

/// The first position at or after `i` that is white space (the length when
/// there is none): where a word that goes on at `i` ends.
pub open spec fn word_end(s: Seq<char>, i: int) -> int
    decreases s.len() - i,
{
    if 0 <= i < s.len() && !white_space(s[i]) {
        word_end(s, i + 1)
    } else {
        i
    }
}

/// The first word of `s` at or after position `i`, if any: a longest run of
/// characters that are not white space.
pub open spec fn word_after(s: Seq<char>, i: int) -> Option<Seq<char>> {
    if skip_white(s, i) < s.len() {
        Some(s.subrange(skip_white(s, i), word_end(s, skip_white(s, i))))
    } else {
        None
    }
}

/// The action that a typed line asks for: the line is trimmed and
/// lowercased, its first word is the command and its second word, if any,
/// the argument.
pub open spec fn spec_line_action(line: Seq<char>) -> Option<Action> {
    let s = lowercased(trimmed(line));
    match word_after(s, 0) {
        Some(command) => spec_command_action(
            command,
            word_after(s, word_end(s, skip_white(s, 0))),
        ),
        None => None,
    }
}

/// The first position at or after `from` that is not white space.
fn skip_white_at(s: &str, from: usize) -> (r: usize)
    requires
        from <= s@.len(),
    ensures
        r == skip_white(s@, from as int),
        from <= r <= s@.len(),
{
    let n = s.unicode_len();
    let mut i = from;
    while i < n && is_white_space(s.get_char(i))
        invariant
            n == s@.len(),
            from <= i <= n,
            skip_white(s@, i as int) == skip_white(s@, from as int),
        decreases n - i,
    {
        i += 1;
    }
    i
}

/// The first position at or after `from` that is white space.
fn word_end_at(s: &str, from: usize) -> (r: usize)
    requires
        from <= s@.len(),
    ensures
        r == word_end(s@, from as int),
        from <= r <= s@.len(),
{
    let n = s.unicode_len();
    let mut i = from;
    while i < n && !is_white_space(s.get_char(i))
        invariant
            n == s@.len(),
            from <= i <= n,
            word_end(s@, i as int) == word_end(s@, from as int),
        decreases n - i,
    {
        i += 1;
    }
    i
}

/// The action that a typed line asks for; `None` when it is not understood.
pub fn line_action(line: &str) -> (r: Option<Action>)
    ensures
        r == spec_line_action(line@),
{
    let lower = to_lowercase(trim(line));
    let s = lower.as_str();
    let n = s.unicode_len();
    let start = skip_white_at(s, 0);
    if start >= n {
        return None;
    }
    let end = word_end_at(s, start);
    let command = s.substring_char(start, end);
    let next = skip_white_at(s, end);
    if next >= n {
        command_action(command, None)
    } else {
        let next_end = word_end_at(s, next);
        command_action(command, Some(s.substring_char(next, next_end)))
    }
}

} // verus!
