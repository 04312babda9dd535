//! Escape sequences for cursor movement, clearing and text style.
//!
//! Every function here is pure: it appends to, or returns, text, and the
//! caller decides when a whole frame is written out.

use vstd::prelude::*;

verus! {

/// The control sequence introducer, `ESC [`.
pub open spec fn csi() -> Seq<char> {
    seq!['\x1b', '[']
}

/// The character of a decimal digit `d`, for `d` below ten.
pub open spec fn digit_char(d: nat) -> char {
    (48 + d) as u8 as char
}

/// The decimal numeral of `n`, without leading zeros.
pub open spec fn decimal(n: nat) -> Seq<char>
    decreases n,
{
    if n < 10 {
        seq![digit_char(n)]
    } else {
        decimal(n / 10).push(digit_char(n % 10))
    }
}

/// `ESC [ n G`: move the cursor to column `n`, counted from one.
pub open spec fn column_seq(n: nat) -> Seq<char> {
    csi() + decimal(n) + seq!['G']
}

/// `ESC [ n A`: move the cursor up by `n` rows.
pub open spec fn up_seq(n: nat) -> Seq<char> {
    csi() + decimal(n) + seq!['A']
}

/// `ESC [ J`: clear the screen from the cursor on.
pub open spec fn clear_seq() -> Seq<char> {
    csi() + seq!['J']
}

/// `ESC [ 7 m`: switch inverted text on.
pub open spec fn invert_seq() -> Seq<char> {
    csi() + seq!['7', 'm']
}

/// `ESC [ 2 7 m`: switch inverted text off.
pub open spec fn no_invert_seq() -> Seq<char> {
    csi() + seq!['2', '7', 'm']
}

/// Appends the decimal numeral of `n` to `out`.
pub fn push_decimal(out: &mut String, n: u128)
    ensures
        final(out)@ == old(out)@ + decimal(n as nat),
    decreases n,
{
    if n < 10 {
        let d: u8 = n as u8;
        out.push((48u8 + d) as char);
        assert(out@ =~= old(out)@ + decimal(n as nat));
    } else {
        push_decimal(out, n / 10);
        let d: u8 = (n % 10) as u8;
        out.push((48u8 + d) as char);
        assert(out@ =~= old(out)@ + decimal(n as nat));
    }
}

fn push_csi(out: &mut String)
    ensures
        final(out)@ == old(out)@ + csi(),
{
    out.push('\x1b');
    out.push('[');
    assert(out@ =~= old(out)@ + csi());
}

/// Appends the sequence that moves the cursor to column `n`.
pub fn push_column(out: &mut String, n: u128)
    ensures
        final(out)@ == old(out)@ + column_seq(n as nat),
{
    push_csi(out);
    push_decimal(out, n);
    out.push('G');
    assert(out@ =~= old(out)@ + column_seq(n as nat));
}

/// Appends the sequence that moves the cursor up by `n` rows.
pub fn push_up(out: &mut String, n: u128)
    ensures
        final(out)@ == old(out)@ + up_seq(n as nat),
{
    push_csi(out);
    push_decimal(out, n);
    out.push('A');
    assert(out@ =~= old(out)@ + up_seq(n as nat));
}

/// Appends the sequence that clears the screen from the cursor on.
pub fn push_clear(out: &mut String)
    ensures
        final(out)@ == old(out)@ + clear_seq(),
{
    push_csi(out);
    out.push('J');
    assert(out@ =~= old(out)@ + clear_seq());
}

/// Appends the sequence that switches inverted text on.
pub fn push_invert(out: &mut String)
    ensures
        final(out)@ == old(out)@ + invert_seq(),
{
    push_csi(out);
    out.push('7');
    out.push('m');
    assert(out@ =~= old(out)@ + invert_seq());
}

/// Appends the sequence that switches inverted text off.
pub fn push_no_invert(out: &mut String)
    ensures
        final(out)@ == old(out)@ + no_invert_seq(),
{
    push_csi(out);
    out.push('2');
    out.push('7');
    out.push('m');
    assert(out@ =~= old(out)@ + no_invert_seq());
}

} // verus!
