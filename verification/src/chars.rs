//! Character classes of the tokenizer, and what is assumed of the standard
//! library's functions on characters and strings.
//!
//! The classes are those of `char::is_whitespace`, `char::is_numeric` and
//! `char::is_alphabetic`. Inside ASCII each class is written out here; for the
//! rest of Unicode it is whatever the standard library's tables say, and is
//! only given a name.
use vstd::prelude::*;

verus! {

/// What `char::is_whitespace` returns for `c`: whether `c` has the Unicode
/// property `White_Space`.
pub uninterp spec fn white_space(c: char) -> bool;

/// What `char::is_numeric` returns for `c`: whether `c` has one of the Unicode
/// general categories `Nd`, `Nl` or `No`.
pub uninterp spec fn numeric(c: char) -> bool;

/// What `char::is_alphabetic` returns for `c`: whether `c` has the Unicode
/// property `Alphabetic`.
pub uninterp spec fn alphabetic(c: char) -> bool;

/// The characters `U+0000` to `U+007F`.
pub open spec fn is_ascii(c: char) -> bool {
    c <= '\x7f'
}

/// The ASCII digits `0` to `9`.
pub open spec fn is_ascii_digit(c: char) -> bool {
    '0' <= c <= '9'
}

/// The ASCII letters `a` to `z` and `A` to `Z`.
pub open spec fn is_ascii_letter(c: char) -> bool {
    'a' <= c <= 'z' || 'A' <= c <= 'Z'
}

/// The ASCII white space: the space and the controls `U+0009` to `U+000D`.
pub open spec fn is_ascii_space(c: char) -> bool {
    c == ' ' || '\t' <= c <= '\r'
}

/// White space, which separates tokens.
pub open spec fn is_blank(c: char) -> bool {
    if is_ascii(c) {
        is_ascii_space(c)
    } else {
        white_space(c)
    }
}

/// Characters that count as digits inside a run of digits.
pub open spec fn is_digit(c: char) -> bool {
    if is_ascii(c) {
        is_ascii_digit(c)
    } else {
        numeric(c)
    }
}

/// Characters that count as letters inside a keyword.
pub open spec fn is_letter(c: char) -> bool {
    if is_ascii(c) {
        is_ascii_letter(c)
    } else {
        alphabetic(c)
    }
}

/// `char::is_whitespace` tells whether a character has the Unicode property
/// `White_Space`. Assumed here: the answer depends on the character alone,
/// and inside ASCII it is yes for the space and for `U+0009` to `U+000D` and
/// no for everything else.
pub assume_specification[ char::is_whitespace ](c: char) -> (r: bool)
    ensures
        r == white_space(c),
        is_ascii(c) ==> r == is_ascii_space(c),
;

/// `char::is_numeric` tells whether a character is in one of the Unicode
/// number categories. Assumed here: the answer depends on the character
/// alone, and inside ASCII it is yes for the digits `0` to `9` and no for
/// everything else.
pub assume_specification[ char::is_numeric ](c: char) -> (r: bool)
    ensures
        r == numeric(c),
        is_ascii(c) ==> r == is_ascii_digit(c),
;

/// `char::is_alphabetic` tells whether a character has the Unicode property
/// `Alphabetic`. Assumed here: the answer depends on the character alone, and
/// inside ASCII it is yes for the letters `a` to `z` and `A` to `Z` and no for
/// everything else.
pub assume_specification[ char::is_alphabetic ](c: char) -> (r: bool)
    ensures
        r == alphabetic(c),
        is_ascii(c) ==> r == is_ascii_letter(c),
;

/// `String::push` appends one character to the end of a string.
pub assume_specification[ String::push ](s: &mut String, c: char)
    ensures
        final(s)@ == old(s)@.push(c),
;

} // verus!
