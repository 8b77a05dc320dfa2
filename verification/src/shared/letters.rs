//! Capital letters.

use vstd::prelude::*;

verus! {

/// Every character is an ASCII character.
pub open spec fn all_ascii(s: Seq<char>) -> bool {
    forall|i: int| 0 <= i < s.len() ==> (#[trigger] s[i]) as u32 <= 0x7f
}

/// The capital form of an ASCII letter; other characters as they are.
pub open spec fn ascii_upper(c: char) -> char {
    if 'a' <= c <= 'z' {
        (c as u32 - 0x20) as char
    } else {
        c
    }
}

/// What `str::to_uppercase` makes of a text.
pub uninterp spec fn upper_text(s: Seq<char>) -> Seq<char>;

/// A text in capitals: in a text of ASCII characters each small letter is
/// replaced by its capital; other texts are as `str::to_uppercase` makes them.
pub open spec fn capitals(s: Seq<char>) -> Seq<char> {
    if all_ascii(s) {
        Seq::new(s.len(), |i: int| ascii_upper(s[i]))
    } else {
        upper_text(s)
    }
}

/// Calls `str::to_uppercase`. The result depends on the text alone; in a text
/// of ASCII characters each small letter is replaced by its capital.
#[verifier::external_body]
pub(crate) fn upper_string(s: &str) -> (r: String)
    ensures
        r@ == (if all_ascii(s@) {
            Seq::new(s@.len(), |i: int| ascii_upper(s@[i]))
        } else {
            upper_text(s@)
        }),
{
    s.to_uppercase()
}

} // verus!
