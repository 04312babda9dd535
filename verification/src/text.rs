//! Small operations on strings that the rest of the crate builds on.

use vstd::prelude::*;
use vstd::string::*;

verus! {

/// `String::push` appends the character to the end of the string.
pub assume_specification[ String::push ](s: &mut String, ch: char)
    ensures
        final(s)@ == old(s)@.push(ch),
;

/// `String::pop` removes the last character and returns it; on the empty
/// string it returns `None` and changes nothing.
pub assume_specification[ String::pop ](s: &mut String) -> (r: Option<char>)
    ensures
        old(s)@.len() > 0 ==> r == Some(old(s)@.last()) && final(s)@ == old(s)@.drop_last(),
        old(s)@.len() == 0 ==> r is None && final(s)@ == old(s)@,
;

/// `text`, cut to at most `width` characters.
pub open spec fn truncated(text: Seq<char>, width: nat) -> Seq<char> {
    if text.len() <= width {
        text
    } else {
        text.subrange(0, width as int)
    }
}

/// Cuts `text` to at most `width` characters.
pub fn truncate<'a>(text: &'a str, width: usize) -> (r: &'a str)
    ensures
        r@ == truncated(text@, width as nat),
{
    let len = text.unicode_len();
    if len <= width {
        text
    } else {
        text.substring_char(0, width)
    }
}

} // verus!
