//! Character classes of the concrete syntax, and what is taken on trust
//! about the standard library's character and string primitives.

use vstd::prelude::*;

verus! {

/// The binder sigil that opens an abstraction.
pub const LAMBDA: char = 'λ';

/// For a code point above the ASCII range: whether Unicode classes it as
/// alphabetic or numeric. The tables behind this are not restated here.
pub uninterp spec fn unicode_alphanumeric(c: char) -> bool;

/// The code points that carry Unicode's `White_Space` property.
pub open spec fn is_space(c: char) -> bool {
    ||| '\u{9}' <= c <= '\u{D}'
    ||| c == ' '
    ||| c == '\u{85}'
    ||| c == '\u{A0}'
    ||| c == '\u{1680}'
    ||| '\u{2000}' <= c <= '\u{200A}'
    ||| c == '\u{2028}'
    ||| c == '\u{2029}'
    ||| c == '\u{202F}'
    ||| c == '\u{205F}'
    ||| c == '\u{3000}'
}

/// The letters and digits of ASCII.
pub open spec fn ascii_alphanumeric(c: char) -> bool {
    ||| 'a' <= c <= 'z'
    ||| 'A' <= c <= 'Z'
    ||| '0' <= c <= '9'
}

/// Letters and digits: spelled out for ASCII, left to Unicode's tables beyond it.
pub open spec fn is_alphanumeric(c: char) -> bool {
    if c <= '\u{7F}' {
        ascii_alphanumeric(c)
    } else {
        unicode_alphanumeric(c)
    }
}

/// The characters an identifier is made of.
pub open spec fn is_ident_char(c: char) -> bool {
    is_alphanumeric(c) || c == '_'
}

/// `char::is_whitespace` answers whether the character has the `White_Space`
/// property, which Unicode gives to exactly the code points of [`is_space`].
pub assume_specification[ char::is_whitespace ](c: char) -> (b: bool)
    ensures
        b == is_space(c),
;

/// `char::is_alphanumeric` answers whether the character is alphabetic or
/// numeric. Within ASCII these are the letters and the digits; above it the
/// answer is a fixed function of the code point, named
/// [`unicode_alphanumeric`].
pub assume_specification[ char::is_alphanumeric ](c: char) -> (b: bool)
    ensures
        b == if c <= '\u{7F}' {
            ascii_alphanumeric(c)
        } else {
            unicode_alphanumeric(c)
        },
;

/// `String::push` appends one character to the end of the string.
pub assume_specification[ String::push ](s: &mut String, c: char)
    ensures
        final(s)@ == old(s)@.push(c),
;

/// Whether `c` may stand in an identifier.
pub fn ident_char(c: char) -> (b: bool)
    ensures
        b == is_ident_char(c),
{
    c.is_alphanumeric() || c == '_'
}

} // verus!
