//! What the terminal session exchanges with the chooser: key events, how
//! they are decoded from the bytes that a terminal in raw mode sends, and
//! the ways in which switching the terminal's mode can fail.

use vstd::prelude::*;
use vstd::utf8::*;

verus! {

/// A key event.
#[derive(Clone, Copy, Debug, PartialEq, Eq, Structural)]
pub enum Key {
    /// A character to type; Enter comes as the newline character.
    Char(char),
    /// A letter pressed together with the control key.
    Ctrl(char),
    /// The backspace key.
    Backspace,
    /// Any other key or sequence, such as an arrow key.
    Other,
}

/// A failure to read or to set the terminal's mode.
#[derive(Clone, Copy, Debug, PartialEq, Eq, Structural)]
pub enum Error {
    /// The current mode could not be read.
    TcGetAttr,
    /// The mode could not be set.
    TcSetAttr,
}

/// `char::from_u32` gives the character with the given scalar value, and
/// `None` for a number that is no scalar value: one above `0x10FFFF` or a
/// surrogate.
pub assume_specification[ char::from_u32 ](i: u32) -> (r: Option<char>)
    ensures
        is_scalar(i) ==> r == Some(i as char),
        !is_scalar(i) ==> r is None,
;

/// The byte that starts an escape sequence.
pub const ESCAPE: u8 = 0x1b;

/// The number of bytes in the encoding of a character that starts with
/// `lead`, or 0 where no encoding starts with it.
pub open spec fn scalar_width(lead: u8) -> int {
    if is_leading_byte_width_1(lead) {
        1
    } else if is_leading_byte_width_2(lead) {
        2
    } else if is_leading_byte_width_3(lead) {
        3
    } else if is_leading_byte_width_4(lead) {
        4
    } else {
        0
    }
}

/// Whether `b` ends a control sequence.
pub open spec fn is_final_byte(b: u8) -> bool {
    0x40 <= b <= 0x7e
}

/// The position of the first byte at or after `from` that ends a control
/// sequence, or the length of `bytes` where there is none.
pub open spec fn sequence_end(bytes: Seq<u8>, from: int) -> int
    decreases bytes.len() - from,
{
    if from < 0 || from >= bytes.len() {
        bytes.len() as int
    } else if is_final_byte(bytes[from]) {
        from
    } else {
        sequence_end(bytes, from + 1)
    }
}

/// The key that the encoded character at the front of `bytes` stands for,
/// with the number of bytes it takes. A byte that starts no character, or
/// a start that is not followed by the bytes it announces, is one unknown
/// key of one byte. `None` where the bytes end before the character does.
pub open spec fn decode_text(bytes: Seq<u8>) -> Option<(Key, int)>
    recommends
        bytes.len() > 0,
{
    let width = scalar_width(bytes[0]);
    if width == 0 {
        Some((Key::Other, 1))
    } else if bytes.len() < width {
        None
    } else if valid_first_scalar(bytes) {
        Some((Key::Char(decode_first_scalar(bytes) as char), width))
    } else {
        Some((Key::Other, 1))
    }
}

/// The key of an escape sequence at the front of `bytes`, which start with
/// the escape byte. Every such key is [`Key::Other`]; what is decoded is
/// how far the sequence reaches: a lone escape byte; `ESC [` up to the
/// first final byte; `ESC O` and one more byte; or the escape byte and one
/// character. `None` where the bytes end before the sequence does.
pub open spec fn decode_escape(bytes: Seq<u8>) -> Option<(Key, int)>
    recommends
        bytes.len() > 0,
        bytes[0] == ESCAPE,
{
    if bytes.len() == 1 {
        Some((Key::Other, 1))
    } else if bytes[1] == 0x5b {
        let end = sequence_end(bytes, 2);
        if end < bytes.len() {
            Some((Key::Other, end + 1))
        } else {
            None
        }
    } else if bytes[1] == 0x4f {
        if bytes.len() < 3 {
            None
        } else {
            Some((Key::Other, 3))
        }
    } else {
        match decode_text(bytes.skip(1)) {
            Some((_, used)) => Some((Key::Other, used + 1)),
            None => None,
        }
    }
}

/// The key at the front of `bytes` and the number of bytes that it takes,
/// or `None` where `bytes` hold no whole key yet.
///
/// Carriage return and line feed are Enter, the newline character. The
/// delete byte is backspace. The bytes 1 to 26 are control with the letter
/// of that position in the alphabet, but for tab, which is the tab
/// character; the bytes 28 to 31 are control with the digits 4 to 7.
pub open spec fn decode_key(bytes: Seq<u8>) -> Option<(Key, int)> {
    if bytes.len() == 0 {
        None
    } else {
        let b = bytes[0];
        if b == ESCAPE {
            decode_escape(bytes)
        } else if b == 0x0a || b == 0x0d {
            Some((Key::Char('\n'), 1))
        } else if b == 0x09 {
            Some((Key::Char('\t'), 1))
        } else if b == 0x7f {
            Some((Key::Backspace, 1))
        } else if b == 0 {
            Some((Key::Other, 1))
        } else if b <= 0x1a {
            Some((Key::Ctrl(((b + 0x60) as u8) as char), 1))
        } else if b <= 0x1f {
            Some((Key::Ctrl(((b + 0x18) as u8) as char), 1))
        } else {
            decode_text(bytes)
        }
    }
}

proof fn lemma_sequence_end_ignores_rest(bytes: Seq<u8>, more: Seq<u8>, from: int)
    requires
        0 <= from,
        sequence_end(bytes, from) < bytes.len(),
    ensures
        sequence_end(bytes + more, from) == sequence_end(bytes, from),
    decreases bytes.len() - from,
{
    if from < bytes.len() {
        assert((bytes + more)[from] == bytes[from]);
        if !is_final_byte(bytes[from]) {
            lemma_sequence_end_ignores_rest(bytes, more, from + 1);
        }
    }
}

proof fn lemma_text_ignores_rest(bytes: Seq<u8>, more: Seq<u8>)
    requires
        bytes.len() > 0,
        decode_text(bytes) is Some,
    ensures
        decode_text(bytes + more) == decode_text(bytes),
{
    let longer = bytes + more;
    assert(longer[0] == bytes[0]);
    let width = scalar_width(bytes[0]);
    if width > 0 {
        assert(bytes.len() >= width);
        assert forall|i: int| 0 <= i < width implies longer[i] == bytes[i] by {}
        if width >= 2 {
            assert(longer[1] == bytes[1]);
        }
        if width >= 3 {
            assert(longer[2] == bytes[2]);
        }
        if width >= 4 {
            assert(longer[3] == bytes[3]);
        }
    }
}

/// What a key takes does not depend on the bytes behind it: once `bytes`
/// hold a whole key, more bytes change neither the key nor its length. The
/// one exception is a lone escape byte, which more bytes can make the
/// start of a sequence.
pub proof fn lemma_decode_ignores_rest(bytes: Seq<u8>, more: Seq<u8>)
    requires
        decode_key(bytes) is Some,
        !(bytes.len() == 1 && bytes[0] == ESCAPE),
    ensures
        decode_key(bytes + more) == decode_key(bytes),
{
    let longer = bytes + more;
    assert(longer[0] == bytes[0]);
    if bytes[0] == ESCAPE {
        assert(longer[1] == bytes[1]);
        if bytes[1] == 0x5b {
            lemma_sequence_end_ignores_rest(bytes, more, 2);
        } else if bytes[1] == 0x4f {
        } else {
            assert(longer.skip(1) =~= bytes.skip(1) + more);
            lemma_text_ignores_rest(bytes.skip(1), more);
        }
    } else if bytes[0] > 0x1f && bytes[0] != 0x7f {
        lemma_text_ignores_rest(bytes, more);
    }
}

/// A typed character comes back as itself: the encoding of a character
/// that is no control character decodes to that character and takes the
/// whole encoding.
pub proof fn lemma_decode_typed(c: char)
    requires
        c as u32 >= 0x20,
        c as u32 != 0x7f,
    ensures
        decode_key(encode_utf8(seq![c])) == Some(
            (Key::Char(c), encode_utf8(seq![c]).len() as int),
        ),
{
    let chars = seq![c];
    let bytes = encode_utf8(chars);
    encode_utf8_first_scalar(chars);
    assert(encode_utf8(chars.drop_first()) =~= Seq::<u8>::empty());
    assert(bytes =~= encode_scalar(c as u32));
    char_u32_cast(c, decode_first_scalar(bytes));
    let b = bytes[0];
    if is_leading_byte_width_1(b) {
        assert((b & 0x7f) as u32 == b) by (bit_vector)
            requires
                b <= 0x7f,
        ;
    }
}

/// A key takes at least one byte, and no more than there are.
pub proof fn lemma_decode_takes_within(bytes: Seq<u8>)
    ensures
        takes_within(decode_key(bytes), bytes.len()),
{
    if bytes.len() > 1 && bytes[0] == ESCAPE && bytes[1] == 0x5b {
        lemma_sequence_end_bounds(bytes, 2);
    }
}

proof fn lemma_sequence_end_bounds(bytes: Seq<u8>, from: int)
    requires
        0 <= from <= bytes.len(),
    ensures
        from <= sequence_end(bytes, from) <= bytes.len(),
    decreases bytes.len() - from,
{
    if from < bytes.len() && !is_final_byte(bytes[from]) {
        lemma_sequence_end_bounds(bytes, from + 1);
    }
}

/// Decodes the character at the front of `bytes`, which hold all the bytes
/// that the first one announces.
fn scalar_at(bytes: &[u8]) -> (r: Option<char>)
    requires
        bytes@.len() > 0,
        scalar_width(bytes@[0]) > 0,
        bytes@.len() >= scalar_width(bytes@[0]),
    ensures
        valid_first_scalar(bytes@) ==> r == Some(decode_first_scalar(bytes@) as char),
        !valid_first_scalar(bytes@) ==> r is None,
{
    let b0 = bytes[0];
    if b0 <= 0x7f {
        let point: u32 = (b0 & 0x7f) as u32;
        assert(point <= 0x7f) by (bit_vector)
            requires
                point == (b0 & 0x7f) as u32,
        ;
        char::from_u32(point)
    } else if b0 <= 0xdf {
        let b1 = bytes[1];
        if !(0x80 <= b1 && b1 <= 0xbf) {
            return None;
        }
        let point: u32 = (((b0 & 0x1f) as u32) << 6) | ((b1 & 0x3f) as u32);
        assert(point <= 0x7ff) by (bit_vector)
            requires
                point == (((b0 & 0x1f) as u32) << 6) | ((b1 & 0x3f) as u32),
        ;
        if point < 0x80 {
            return None;
        }
        char::from_u32(point)
    } else if b0 <= 0xef {
        let b1 = bytes[1];
        let b2 = bytes[2];
        if !(0x80 <= b1 && b1 <= 0xbf && 0x80 <= b2 && b2 <= 0xbf) {
            return None;
        }
        let point: u32 = (((b0 & 0x0f) as u32) << 12) | (((b1 & 0x3f) as u32) << 6) | ((b2
            & 0x3f) as u32);
        assert(point <= 0xffff) by (bit_vector)
            requires
                point == (((b0 & 0x0f) as u32) << 12) | (((b1 & 0x3f) as u32) << 6) | ((b2
                    & 0x3f) as u32),
        ;
        if point < 0x800 || (0xd800 <= point && point <= 0xdfff) {
            return None;
        }
        char::from_u32(point)
    } else {
        let b1 = bytes[1];
        let b2 = bytes[2];
        let b3 = bytes[3];
        if !(0x80 <= b1 && b1 <= 0xbf && 0x80 <= b2 && b2 <= 0xbf && 0x80 <= b3 && b3 <= 0xbf) {
            return None;
        }
        let point: u32 = (((b0 & 0x07) as u32) << 18) | (((b1 & 0x3f) as u32) << 12) | (((b2
            & 0x3f) as u32) << 6) | ((b3 & 0x3f) as u32);
        if point < 0x10000 || point > 0x10ffff {
            return None;
        }
        char::from_u32(point)
    }
}

/// The number of bytes in the encoding of a character that starts with
/// `lead`, or 0 where no encoding starts with it.
fn width_of(lead: u8) -> (width: usize)
    ensures
        width == scalar_width(lead),
{
    if lead <= 0x7f {
        1
    } else if lead < 0xc0 {
        0
    } else if lead <= 0xdf {
        2
    } else if lead <= 0xef {
        3
    } else if lead <= 0xf7 {
        4
    } else {
        0
    }
}

/// Decodes the key of the character that starts at `from`.
fn text_key(bytes: &[u8], from: usize) -> (r: Option<(Key, usize)>)
    requires
        from < bytes@.len(),
    ensures
        matches_decoded(r, decode_text(bytes@.skip(from as int))),
        takes_within(decode_text(bytes@.skip(from as int)), (bytes@.len() - from) as nat),
{
    let rest = vstd::slice::slice_subrange(bytes, from, bytes.len());
    assert(rest@ =~= bytes@.skip(from as int));
    let width = width_of(rest[0]);
    if width == 0 {
        Some((Key::Other, 1))
    } else if rest.len() < width {
        None
    } else {
        match scalar_at(rest) {
            Some(c) => Some((Key::Char(c), width)),
            None => Some((Key::Other, 1)),
        }
    }
}

/// Whether a decoder's answer `r` is the answer `expected`.
pub open spec fn matches_decoded(r: Option<(Key, usize)>, expected: Option<(Key, int)>) -> bool {
    match r {
        Some((key, used)) => expected == Some((key, used as int)),
        None => expected is None,
    }
}

/// Decodes an escape sequence.
fn escape_key(bytes: &[u8]) -> (r: Option<(Key, usize)>)
    requires
        bytes@.len() > 0,
        bytes@[0] == ESCAPE,
    ensures
        matches_decoded(r, decode_escape(bytes@)),
        takes_within(decode_escape(bytes@), bytes@.len()),
{
    if bytes.len() == 1 {
        Some((Key::Other, 1))
    } else if bytes[1] == 0x5b {
        let mut end: usize = 2;
        while end < bytes.len() && !(0x40 <= bytes[end] && bytes[end] <= 0x7e)
            invariant
                2 <= end <= bytes@.len(),
                sequence_end(bytes@, end as int) == sequence_end(bytes@, 2),
            decreases bytes@.len() - end,
        {
            end += 1;
        }
        if end < bytes.len() {
            Some((Key::Other, end + 1))
        } else {
            None
        }
    } else if bytes[1] == 0x4f {
        if bytes.len() < 3 {
            None
        } else {
            Some((Key::Other, 3))
        }
    } else {
        match text_key(bytes, 1) {
            Some((_, used)) => Some((Key::Other, used + 1)),
            None => None,
        }
    }
}

/// Whether a decoded key takes at least one byte and at most `len`.
pub open spec fn takes_within(r: Option<(Key, int)>, len: nat) -> bool {
    match r {
        Some((_, used)) => 1 <= used <= len,
        None => true,
    }
}


/// Decodes the key at the front of `bytes`: the key and the number of
/// bytes that it takes, which is at least one and at most all of them; or
/// `None` where `bytes` hold no whole key yet.
pub fn decode(bytes: &[u8]) -> (r: Option<(Key, usize)>)
    ensures
        matches_decoded(r, decode_key(bytes@)),
        takes_within(decode_key(bytes@), bytes@.len()),
{
    if bytes.len() == 0 {
        return None;
    }
    let b = bytes[0];
    if b == ESCAPE {
        escape_key(bytes)
    } else if b == 0x0a || b == 0x0d {
        Some((Key::Char('\n'), 1))
    } else if b == 0x09 {
        Some((Key::Char('\t'), 1))
    } else if b == 0x7f {
        Some((Key::Backspace, 1))
    } else if b == 0 {
        Some((Key::Other, 1))
    } else if b <= 0x1a {
        Some((Key::Ctrl((b + 0x60) as char), 1))
    } else if b <= 0x1f {
        Some((Key::Ctrl((b + 0x18) as char), 1))
    } else {
        assert(bytes@.skip(0) =~= bytes@);
        text_key(bytes, 0)
    }
}

} // verus!
