use vstd::prelude::*;

verus! {

/// Whether `b` is an ASCII decimal digit.
pub open spec fn is_digit(b: u8) -> bool {
    48 <= b <= 57
}

/// The value of a run of decimal digits.
pub open spec fn digits_value(b: Seq<u8>) -> int
    decreases b.len(),
{
    if b.len() == 0 {
        0
    } else {
        10 * digits_value(b.drop_last()) + (b.last() - 48)
    }
}

/// What a decimal integer literal denotes as an `i64`: an optional `+` or
/// `-`, then one or more decimal digits, whose value fits in an `i64`.
/// Anything else denotes nothing.
pub open spec fn i64_literal(b: Seq<u8>) -> Option<i64> {
    let signed = b.len() > 0 && (b[0] == 43 || b[0] == 45);
    let body = if signed {
        b.drop_first()
    } else {
        b
    };
    let value = if signed && b[0] == 45 {
        -digits_value(body)
    } else {
        digits_value(body)
    };
    if body.len() == 0 || exists|i: int| 0 <= i < body.len() && !is_digit(body[i]) {
        None
    } else if i64::MIN <= value <= i64::MAX {
        Some(value as i64)
    } else {
        None
    }
}

/// Relies on `lexical_core::parse::<i64>` in its standard number format: the
/// whole slice must be an optional sign and at least one decimal digit, and
/// the value must fit, else it is an error.
#[verifier::external_body]
pub(crate) fn parse_i64(b: &[u8]) -> (r: Option<i64>)
    ensures
        r == i64_literal(b@),
{
    lexical_core::parse::<i64>(b).ok()
}

} // verus!
