//! The listing: the encoded stream as text, one line for each byte.

use crate::backend::assembler::{PageOutput, PageOutputView};
use vstd::prelude::*;
use vstd::string::*;

verus! {

/// The numeral of `n` in base 2, `width` digits wide, the highest digit
/// first. Digits of `n` beyond the width are left out.
pub open spec fn binary(n: nat, width: nat) -> Seq<char>
    decreases width,
{
    if width == 0 {
        seq![]
    } else {
        binary(n / 2, (width - 1) as nat).push(
            if n % 2 == 1 {
                '1'
            } else {
                '0'
            },
        )
    }
}

/// The number that a numeral in base 2 stands for, the highest digit
/// first; every character but `1` counts as zero.
pub open spec fn binary_value(digits: Seq<char>) -> nat
    decreases digits.len(),
{
    if digits.len() == 0 {
        0
    } else {
        binary_value(digits.drop_last()) * 2 + if digits.last() == '1' {
            1nat
        } else {
            0nat
        }
    }
}

/// Two to the power of `width`.
pub open spec fn two_to(width: nat) -> nat
    decreases width,
{
    if width == 0 {
        1
    } else {
        2 * two_to((width - 1) as nat)
    }
}

/// The line of a byte: its eight binary digits.
pub open spec fn bits_of(byte: u8) -> Seq<char> {
    binary(byte as nat, 8)
}

/// The numeral of `n` in base 10, without leading zeros.
pub open spec fn decimal_text(n: nat) -> Seq<char>
    decreases n,
{
    if n < 10 {
        seq![(0x30 + n) as char]
    } else {
        decimal_text(n / 10).push((0x30 + n % 10) as char)
    }
}

/// How many of the first `n` items are bytes.
pub open spec fn bytes_before(out: Seq<PageOutputView>, n: int) -> nat
    decreases n,
{
    if n <= 0 {
        0
    } else if out[n - 1] is Lit {
        bytes_before(out, n - 1) + 1
    } else {
        bytes_before(out, n - 1)
    }
}

/// The header line of page `page`.
pub open spec fn page_header(page: nat) -> Seq<char> {
    "// PAGE "@ + decimal_text(page)
}

/// What item `k` adds to the listing. A byte begins a new line that
/// holds its eight binary digits; the first byte of every page but the
/// first has the header line of its page before it. An annotation is
/// added to the line as it stands, after a space.
pub open spec fn item_text(out: Seq<PageOutputView>, k: int) -> Seq<char> {
    match out[k] {
        PageOutputView::Lit(byte) => {
            let count = bytes_before(out, k);
            if count % 32 == 0 && count != 0 {
                seq!['\n'] + page_header(count / 32) + seq!['\n'] + bits_of(byte)
            } else {
                seq!['\n'] + bits_of(byte)
            }
        },
        PageOutputView::Comment(text) => seq![' '] + text,
    }
}

/// The listing of the first `n` items. It begins with the header line
/// of page 0.
pub open spec fn listing(out: Seq<PageOutputView>, n: int) -> Seq<char>
    decreases n,
{
    if n <= 0 {
        page_header(0)
    } else {
        listing(out, n - 1) + item_text(out, n - 1)
    }
}

/// A numeral in base 2 that is wide enough stands for its number.
pub proof fn lemma_binary_value(n: nat, width: nat)
    requires
        n < two_to(width),
    ensures
        binary(n, width).len() == width,
        binary_value(binary(n, width)) == n,
    decreases width,
{
    if width > 0 {
        lemma_binary_value(n / 2, (width - 1) as nat);
        assert(binary(n, width).drop_last() =~= binary(n / 2, (width - 1) as nat));
    }
}

/// The eight binary digits of a byte stand for the byte: nothing is
/// lost where a byte is written as a line of the listing and read
/// again.
pub proof fn lemma_bits_round_trip(byte: u8)
    ensures
        bits_of(byte).len() == 8,
        binary_value(bits_of(byte)) == byte,
{
    assert(two_to(8) == 256) by {
        reveal_with_fuel(two_to, 9);
    }
    lemma_binary_value(byte as nat, 8);
}

/// Appends the numeral of `n` in base 2, `width` digits wide.
fn push_binary(text: &mut String, n: u8, width: u8)
    ensures
        final(text)@ == old(text)@ + binary(n as nat, width as nat),
    decreases width,
{
    if width == 0 {
        assert(text@ =~= text@ + binary(n as nat, 0));
    } else {
        let ghost before = text@;
        push_binary(text, n / 2, width - 1);
        let digit = if n % 2 == 1 {
            '1'
        } else {
            '0'
        };
        text.push(digit);
        assert(text@ =~= before + binary(n as nat, width as nat));
    }
}

/// Appends the numeral of `n` in base 10.
fn push_decimal(text: &mut String, n: usize)
    ensures
        final(text)@ == old(text)@ + decimal_text(n as nat),
    decreases n,
{
    let ghost before = text@;
    if n < 10 {
        text.push(((0x30 + n) as u8) as char);
        assert(text@ =~= before + decimal_text(n as nat));
    } else {
        push_decimal(text, n / 10);
        text.push(((0x30 + n % 10) as u8) as char);
        assert(text@ =~= before + decimal_text(n as nat));
    }
}

/// Appends the header line of page `page`.
fn push_header(text: &mut String, page: usize)
    ensures
        final(text)@ == old(text)@ + page_header(page as nat),
{
    let ghost before = text@;
    text.append("// PAGE ");
    push_decimal(text, page);
    assert(text@ =~= before + page_header(page as nat));
}

/// Writes the encoded stream as text.
///
/// The text begins with the header line `// PAGE 0`. Each byte has a
/// line of its own, which holds its eight binary digits. Before the
/// first byte of each further page of 32 bytes stands the header line
/// of that page. Each annotation is added, after a space, to the line
/// of the byte that it follows. The text does not end with a line
/// feed.
pub fn render(out: &Vec<PageOutput>) -> (text: String)
    ensures
        text@ == listing(out.deep_view(), out.len() as int),
{
    let ghost items = out.deep_view();
    let mut text = String::new();
    push_header(&mut text, 0);
    assert(text@ =~= listing(items, 0));
    let mut count: usize = 0;
    let mut k: usize = 0;
    while k < out.len()
        invariant
            k <= out.len(),
            items == out.deep_view(),
            count == bytes_before(items, k as int),
            count <= k,
            text@ == listing(items, k as int),
        decreases out.len() - k,
    {
        let ghost before = text@;
        match &out[k] {
            PageOutput::Lit(byte) => {
                if count % 32 == 0 && count != 0 {
                    text.push('\n');
                    push_header(&mut text, count / 32);
                }
                text.push('\n');
                push_binary(&mut text, *byte, 8);
                count += 1;
            },
            PageOutput::Comment(note) => {
                text.push(' ');
                text.append(note.as_str());
            },
        }
        assert(text@ =~= before + item_text(items, k as int));
        k += 1;
    }
    text
}

} // verus!
