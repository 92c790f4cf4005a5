//! Reading whole numbers from text.
//!
//! Whole numbers are read by the `strtoint` crate, which knows the forms of
//! Rust's integer literals: decimal, and hexadecimal, octal and binary after
//! the prefixes `0x`, `0o` and `0b`.

use vstd::prelude::*;

verus! {

/// The whole number that `strtoint` finds written in `text`, however large
/// it is, and `None` where `text` is no integer literal to it. That is a
/// matter of `text` alone.
pub uninterp spec fn integer_value(text: Seq<char>) -> Option<int>;

/// `value` as an `isize`, where there is a value and an `isize` holds it.
pub open spec fn in_isize(value: Option<int>) -> Option<isize> {
    match value {
        Some(n) => if isize::MIN <= n <= isize::MAX {
            Some(n as isize)
        } else {
            None
        },
        None => None,
    }
}

/// Calls `strtoint::strtoint` for an `isize`. It gives the number that is
/// written in `text` where `text` is an integer literal and an `isize`
/// holds its number, and an error, handed on as `None`, for every other
/// text.
#[verifier::external_body]
pub(crate) fn read_integer(text: &str) -> (r: Option<isize>)
    ensures
        r == in_isize(integer_value(text@)),
{
    strtoint::strtoint::<isize>(text).ok()
}

} // verus!
