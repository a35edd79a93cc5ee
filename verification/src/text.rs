//! Small helpers for building the crate's human-readable strings
//! character by character, with exact contracts over `Seq<char>`.

use vstd::prelude::*;

verus! {

/// Relies on std's `String::push`: appends exactly the one character.
#[verifier::external_body]
pub(crate) fn push_char(s: &mut String, c: char)
    ensures
        final(s)@ == old(s)@.push(c),
{
    s.push(c);
}

/// The decimal digit character for a value in `0..10`.
pub open spec fn digit_char(d: int) -> char {
    if d == 0 {
        '0'
    } else if d == 1 {
        '1'
    } else if d == 2 {
        '2'
    } else if d == 3 {
        '3'
    } else if d == 4 {
        '4'
    } else if d == 5 {
        '5'
    } else if d == 6 {
        '6'
    } else if d == 7 {
        '7'
    } else if d == 8 {
        '8'
    } else {
        '9'
    }
}

/// The decimal rendering of a byte value, without leading zeros.
pub open spec fn dec_digits(v: int) -> Seq<char> {
    if v < 10 {
        seq![digit_char(v)]
    } else if v < 100 {
        seq![digit_char(v / 10), digit_char(v % 10)]
    } else {
        seq![digit_char(v / 100), digit_char((v / 10) % 10), digit_char(v % 10)]
    }
}

/// Exec mirror of `digit_char`.
fn digit_char_of(d: u8) -> (c: char)
    requires
        d < 10,
    ensures
        c == digit_char(d as int),
{
    if d == 0 {
        '0'
    } else if d == 1 {
        '1'
    } else if d == 2 {
        '2'
    } else if d == 3 {
        '3'
    } else if d == 4 {
        '4'
    } else if d == 5 {
        '5'
    } else if d == 6 {
        '6'
    } else if d == 7 {
        '7'
    } else if d == 8 {
        '8'
    } else {
        '9'
    }
}

/// Append the decimal rendering of a byte value.
pub(crate) fn push_u8_decimal(s: &mut String, v: u8)
    ensures
        final(s)@ == old(s)@ + dec_digits(v as int),
{
    let ghost s0 = s@;
    if v < 10 {
        push_char(s, digit_char_of(v));
        proof {
            assert(s@ =~= s0 + dec_digits(v as int));
        }
    } else if v < 100 {
        push_char(s, digit_char_of(v / 10));
        push_char(s, digit_char_of(v % 10));
        proof {
            assert(s@ =~= s0 + dec_digits(v as int));
        }
    } else {
        push_char(s, digit_char_of(v / 100));
        push_char(s, digit_char_of((v / 10) % 10));
        push_char(s, digit_char_of(v % 10));
        proof {
            assert(s@ =~= s0 + dec_digits(v as int));
        }
    }
}

/// The decimal rendering of an unsigned 64-bit value, without leading
/// zeros.
pub open spec fn dec_digits_u64(v: int) -> Seq<char>
    decreases v,
{
    if v < 10 {
        seq![digit_char(v)]
    } else {
        dec_digits_u64(v / 10).push(digit_char(v % 10))
    }
}

/// Append the decimal rendering of a 64-bit value.
pub(crate) fn push_u64_decimal(s: &mut String, v: u64)
    ensures
        final(s)@ == old(s)@ + dec_digits_u64(v as int),
    decreases v,
{
    let ghost s0 = s@;
    if v < 10 {
        push_char(s, digit_char_of(v as u8));
        proof {
            assert(s@ =~= s0 + dec_digits_u64(v as int));
        }
    } else {
        push_u64_decimal(s, v / 10);
        push_char(s, digit_char_of((v % 10) as u8));
        proof {
            assert(s@ =~= s0 + dec_digits_u64(v as int));
        }
    }
}

} // verus!
