//! Writing numbers and padded cells into strings.
use vstd::prelude::*;

verus! {

/// The character of decimal digit `d`.
pub open spec fn digit_char(d: nat) -> char {
    (48 + d) as char
}

/// The decimal digits of `n`, without leading zeros.
pub open spec fn decimal(n: nat) -> Seq<char>
    decreases n,
{
    if n < 10 {
        seq![digit_char(n)]
    } else {
        decimal(n / 10).push(digit_char(n % 10))
    }
}

/// `n` copies of character `c`.
pub open spec fn repeated(c: char, n: nat) -> Seq<char> {
    Seq::new(n, |i: int| c)
}

/// `cell` followed by spaces up to `width` characters.
pub open spec fn padded(cell: Seq<char>, width: nat) -> Seq<char> {
    cell + repeated(' ', if width > cell.len() {
        (width - cell.len()) as nat
    } else {
        0nat
    })
}

/// The number of bytes of `s` in UTF-8.
pub open spec fn byte_len(s: Seq<char>) -> nat {
    vstd::utf8::encode_utf8(s).len()
}

/// The number of times character `c` occurs in `s`.
pub open spec fn char_count(s: Seq<char>, c: char) -> nat
    decreases s.len(),
{
    if s.len() == 0 {
        0
    } else {
        char_count(s.drop_last(), c) + if s.last() == c {
            1nat
        } else {
            0nat
        }
    }
}

/// Counting a character in two joined texts adds the counts.
pub proof fn lemma_char_count_add(a: Seq<char>, b: Seq<char>, c: char)
    ensures
        char_count(a + b, c) == char_count(a, c) + char_count(b, c),
    decreases b.len(),
{
    if b.len() == 0 {
        assert(a + b =~= a);
    } else {
        lemma_char_count_add(a, b.drop_last(), c);
        assert((a + b).drop_last() =~= a + b.drop_last());
    }
}

/// Decimal digits hold no character that is not a digit.
pub proof fn lemma_decimal_has_no(n: nat, c: char)
    requires
        !(48 <= c as u32 <= 57),
    ensures
        char_count(decimal(n), c) == 0,
    decreases n,
{
    if n < 10 {
        assert(decimal(n).drop_last() =~= Seq::<char>::empty());
        assert(decimal(n).last() != c);
        assert(char_count(Seq::<char>::empty(), c) == 0);
    } else {
        lemma_decimal_has_no(n / 10, c);
        assert(decimal(n).drop_last() =~= decimal(n / 10));
        assert(decimal(n).last() != c);
    }
}

/// Whether `c` is an ASCII decimal digit.
pub open spec fn is_digit(c: char) -> bool {
    '0' <= c <= '9'
}

/// Whether `s` is one or more ASCII decimal digits.
pub open spec fn all_digits(s: Seq<char>) -> bool {
    s.len() > 0 && forall|i: int| 0 <= i < s.len() ==> is_digit(#[trigger] s[i])
}

/// Scanning `s` from the left: the words completed so far (longest runs of
/// characters other than a space), and the word still open at the end.
pub open spec fn split_scan(s: Seq<char>) -> (Seq<Seq<char>>, Seq<char>)
    decreases s.len(),
{
    if s.len() == 0 {
        (seq![], seq![])
    } else {
        let (ws, cur) = split_scan(s.drop_last());
        if s.last() == ' ' {
            (if cur.len() > 0 {
                ws.push(cur)
            } else {
                ws
            }, seq![])
        } else {
            (ws, cur.push(s.last()))
        }
    }
}

/// The words of `s`, split at spaces: its longest runs of characters other
/// than a space, in order.
pub open spec fn space_words(s: Seq<char>) -> Seq<Seq<char>> {
    let (ws, cur) = split_scan(s);
    if cur.len() > 0 {
        ws.push(cur)
    } else {
        ws
    }
}

/// How many of `ws` are made of decimal digits only.
pub open spec fn digit_words(ws: Seq<Seq<char>>) -> nat
    decreases ws.len(),
{
    if ws.len() == 0 {
        0
    } else {
        digit_words(ws.drop_last()) + if all_digits(ws.last()) {
            1nat
        } else {
            0nat
        }
    }
}

/// How many of `ws` begin with a plus sign.
pub open spec fn plus_words(ws: Seq<Seq<char>>) -> nat
    decreases ws.len(),
{
    if ws.len() == 0 {
        0
    } else {
        plus_words(ws.drop_last()) + if ws.last().len() > 0 && ws.last()[0] == '+' {
            1nat
        } else {
            0nat
        }
    }
}

/// A word without spaces, after text whose last word is closed, is added to
/// the open word.
pub proof fn lemma_scan_word(a: Seq<char>, w: Seq<char>)
    requires
        forall|i: int| 0 <= i < w.len() ==> w[i] != ' ',
    ensures
        split_scan(a + w) == (split_scan(a).0, split_scan(a).1 + w),
    decreases w.len(),
{
    if w.len() == 0 {
        assert(a + w =~= a);
        assert(split_scan(a).1 + w =~= split_scan(a).1);
    } else {
        lemma_scan_word(a, w.drop_last());
        assert((a + w).drop_last() =~= a + w.drop_last());
        assert((split_scan(a).1 + w.drop_last()).push(w.last()) =~= split_scan(a).1 + w);
    }
}

/// A word without spaces and a space, after text whose last word is closed,
/// close one more word.
pub proof fn lemma_scan_word_space(a: Seq<char>, w: Seq<char>)
    requires
        w.len() > 0,
        forall|i: int| 0 <= i < w.len() ==> w[i] != ' ',
        split_scan(a).1.len() == 0,
    ensures
        split_scan((a + w).push(' ')) == (split_scan(a).0.push(w), Seq::<char>::empty()),
{
    lemma_scan_word(a, w);
    assert(split_scan(a).1 + w =~= w);
    assert((a + w).push(' ').drop_last() =~= a + w);
}

/// Decimal digits are digits, at least one.
pub proof fn lemma_decimal_digits(n: nat)
    ensures
        all_digits(decimal(n)),
    decreases n,
{
    if n >= 10 {
        lemma_decimal_digits(n / 10);
        assert forall|i: int| 0 <= i < decimal(n).len() implies is_digit(#[trigger] decimal(n)[i]) by {
            if i < decimal(n / 10).len() {
                assert(decimal(n)[i] == decimal(n / 10)[i]);
            }
        }
    }
}

/// The one-character string of digit `d`.
fn digit_str(d: u32) -> (s: &'static str)
    requires
        d < 10,
    ensures
        s@ == seq![digit_char(d as nat)],
{
    proof {
        reveal_strlit("0");
        reveal_strlit("1");
        reveal_strlit("2");
        reveal_strlit("3");
        reveal_strlit("4");
        reveal_strlit("5");
        reveal_strlit("6");
        reveal_strlit("7");
        reveal_strlit("8");
        reveal_strlit("9");
    }
    match d {
        0 => "0",
        1 => "1",
        2 => "2",
        3 => "3",
        4 => "4",
        5 => "5",
        6 => "6",
        7 => "7",
        8 => "8",
        _ => "9",
    }
}

/// Appends the decimal digits of `n`.
pub fn push_decimal(out: &mut String, n: u32)
    ensures
        final(out)@ == old(out)@ + decimal(n as nat),
    decreases n,
{
    if n >= 10 {
        push_decimal(out, n / 10);
    }
    out.append(digit_str(n % 10));
    proof {
        assert(out@ =~= old(out)@ + decimal(n as nat));
    }
}

/// The decimal digits of `n` as a new string.
pub fn decimal_string(n: u32) -> (s: String)
    ensures
        s@ == decimal(n as nat),
{
    let mut s = String::new();
    push_decimal(&mut s, n);
    proof {
        assert(s@ =~= decimal(n as nat));
    }
    s
}

/// Appends `n` copies of the one-character string `piece`.
pub fn push_repeated(out: &mut String, piece: &str, n: usize)
    requires
        piece@.len() == 1,
    ensures
        final(out)@ == old(out)@ + repeated(piece@[0], n as nat),
{
    let mut i: usize = 0;
    while i < n
        invariant
            i <= n,
            piece@.len() == 1,
            out@ == old(out)@ + repeated(piece@[0], i as nat),
        decreases n - i,
    {
        out.append(piece);
        i += 1;
        proof {
            assert(out@ =~= old(out)@ + repeated(piece@[0], i as nat));
        }
    }
}

/// Appends `cell` padded with spaces to `width` characters.
pub fn push_padded(out: &mut String, cell: &str, width: usize)
    ensures
        final(out)@ == old(out)@ + padded(cell@, width as nat),
{
    out.append(cell);
    let chars = cell.unicode_len();
    let pad = if width > chars {
        width - chars
    } else {
        0
    };
    proof {
        reveal_strlit(" ");
    }
    push_repeated(out, " ", pad);
    proof {
        assert(out@ =~= old(out)@ + padded(cell@, width as nat));
    }
}

/// Widths as natural numbers.
pub open spec fn nat_widths(ws: Seq<usize>) -> Seq<nat> {
    ws.map_values(|w: usize| w as nat)
}

/// The characters of each string.
pub open spec fn strings_view(cs: Seq<String>) -> Seq<Seq<char>> {
    cs.map_values(|s: String| s@)
}

/// A table rule over the first `k` columns: `+`, then for each column
/// `width + 2` dashes and `+`.
pub open spec fn rule_text(widths: Seq<nat>, k: nat) -> Seq<char>
    decreases k,
{
    if k == 0 {
        seq!['+']
    } else {
        rule_text(widths, (k - 1) as nat) + repeated('-', widths[k - 1] + 2) + seq!['+']
    }
}

/// A table rule and the line break after it.
pub open spec fn rule_line(widths: Seq<nat>) -> Seq<char> {
    rule_text(widths, widths.len()).push('\n')
}

/// A table row over the first `k` columns: `|`, then for each column a
/// space, the cell padded to the column's width, a space and `|`.
pub open spec fn cells_text(cells: Seq<Seq<char>>, widths: Seq<nat>, k: nat) -> Seq<char>
    decreases k,
{
    if k == 0 {
        seq!['|']
    } else {
        cells_text(cells, widths, (k - 1) as nat) + seq![' '] + padded(cells[k - 1], widths[k - 1])
            + seq![' ', '|']
    }
}

/// A table row and the line break after it.
pub open spec fn row_line(cells: Seq<Seq<char>>, widths: Seq<nat>) -> Seq<char> {
    cells_text(cells, widths, widths.len()).push('\n')
}

/// Appends a table rule.
pub fn push_rule(out: &mut String, widths: &Vec<usize>)
    requires
        forall|i: int| 0 <= i < widths.len() ==> #[trigger] widths@[i] + 2 <= usize::MAX,
    ensures
        final(out)@ == old(out)@ + rule_line(nat_widths(widths@)),
{
    let ghost ws = nat_widths(widths@);
    proof {
        reveal_strlit("+");
        reveal_strlit("-");
        reveal_strlit("\n");
    }
    out.append("+");
    let mut i: usize = 0;
    while i < widths.len()
        invariant
            i <= widths.len(),
            ws == nat_widths(widths@),
            forall|j: int| 0 <= j < widths.len() ==> #[trigger] widths@[j] + 2 <= usize::MAX,
            out@ == old(out)@ + rule_text(ws, i as nat),
        decreases widths.len() - i,
    {
        proof {
            reveal_strlit("+");
            reveal_strlit("-");
        }
        push_repeated(out, "-", widths[i] + 2);
        out.append("+");
        i += 1;
        proof {
            assert(out@ =~= old(out)@ + rule_text(ws, i as nat));
        }
    }
    out.append("\n");
    proof {
        assert(out@ =~= old(out)@ + rule_line(ws));
    }
}

/// Appends a table row.
pub fn push_row(out: &mut String, cells: &Vec<String>, widths: &Vec<usize>)
    requires
        cells.len() == widths.len(),
    ensures
        final(out)@ == old(out)@ + row_line(strings_view(cells@), nat_widths(widths@)),
{
    let ghost ws = nat_widths(widths@);
    let ghost cs = strings_view(cells@);
    proof {
        reveal_strlit("|");
    }
    out.append("|");
    let mut i: usize = 0;
    while i < widths.len()
        invariant
            i <= widths.len(),
            cells.len() == widths.len(),
            ws == nat_widths(widths@),
            cs == strings_view(cells@),
            out@ == old(out)@ + cells_text(cs, ws, i as nat),
        decreases widths.len() - i,
    {
        proof {
            reveal_strlit(" ");
            reveal_strlit(" |");
        }
        out.append(" ");
        push_padded(out, cells[i].as_str(), widths[i]);
        out.append(" |");
        i += 1;
        proof {
            assert(out@ =~= old(out)@ + cells_text(cs, ws, i as nat));
        }
    }
    proof {
        reveal_strlit("\n");
    }
    out.append("\n");
    proof {
        assert(out@ =~= old(out)@ + row_line(cs, ws));
    }
}

} // verus!
