//! Contracts for two functions of the standard library that come without
//! one.
//!
//! Nothing in this file is proved. Each contract restates what the
//! function's documentation says.

use vstd::prelude::*;

verus! {

/// Whether `c` is alphabetic or numeric in the sense of Unicode: what
/// `char::is_alphanumeric` returns.
pub uninterp spec fn unicode_alphanumeric(c: char) -> bool;

/// `char::is_alphanumeric`: the answer depends on the character alone.
pub assume_specification[ char::is_alphanumeric ](c: char) -> (b: bool)
    ensures
        b == unicode_alphanumeric(c),
;

/// `String::push`: the string grows by the one character at its end.
pub assume_specification[ String::push ](s: &mut String, ch: char)
    ensures
        final(s)@ == old(s)@.push(ch),
;

} // verus!
