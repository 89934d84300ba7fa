use vstd::prelude::*;

verus! {

/// The bit that holds the sign of a double.
pub const SIGN_BIT: u64 = 0x8000_0000_0000_0000u64;

/// The bits of positive infinity: every exponent bit set, no fraction bit.
pub const INFINITY_BITS: u64 = 0x7ff0_0000_0000_0000u64;

/// The key of every distance that is not a number.
pub const NOT_A_NUMBER_KEY: u64 = 0xffff_ffff_ffff_ffffu64;

/// Whether the sign bit of a double with these bits is set.
pub open spec fn is_negative(bits: u64) -> bool {
    bits >= SIGN_BIT
}

/// The bits of a double without its sign: exponent and fraction. Among
/// numbers of one sign, the greater magnitude is the one farther from zero.
pub open spec fn magnitude(bits: u64) -> u64 {
    if bits >= SIGN_BIT {
        (bits - SIGN_BIT) as u64
    } else {
        bits
    }
}

/// Whether a double with these bits is not a number: every exponent bit is
/// set, and some fraction bit.
pub open spec fn is_not_a_number(bits: u64) -> bool {
    magnitude(bits) > INFINITY_BITS
}

/// The key by which a double with these bits is ranked.
///
/// Numbers keep their order: a negative number ranks below zero by its
/// magnitude, a positive one above zero by its magnitude, and the two zeros
/// rank level. A value that is not a number ranks after every number, and
/// level with every other such value.
pub open spec fn key_of(bits: u64) -> u64 {
    if is_not_a_number(bits) {
        NOT_A_NUMBER_KEY
    } else if is_negative(bits) {
        (SIGN_BIT - magnitude(bits)) as u64
    } else {
        (SIGN_BIT + magnitude(bits)) as u64
    }
}

/// Ranks a distance given by the bits of a double, so that distances can be
/// compared as integers.
///
/// No input fails: a distance that is not a number gets the last key, so a
/// selection takes such a candidate only when it runs out of numbers.
pub fn distance_key(bits: u64) -> (key: u64)
    ensures
        key == key_of(bits),
{
    let negative = bits >= SIGN_BIT;
    let magnitude: u64 = if negative {
        bits - SIGN_BIT
    } else {
        bits
    };
    if magnitude > INFINITY_BITS {
        NOT_A_NUMBER_KEY
    } else if negative {
        SIGN_BIT - magnitude
    } else {
        SIGN_BIT + magnitude
    }
}

/// The keys of two numbers compare as the numbers do: by magnitude where
/// both are positive, against it where both are negative, and the negative
/// one first where the signs differ, but that the two zeros are level. What
/// is not a number has a key behind that of every number.
pub proof fn lemma_key_order(a: u64, b: u64)
    ensures
        !is_not_a_number(a) && !is_not_a_number(b) && !is_negative(a) && !is_negative(b) ==> (
        key_of(a) < key_of(b) <==> magnitude(a) < magnitude(b)),
        !is_not_a_number(a) && !is_not_a_number(b) && is_negative(a) && is_negative(b) ==> (key_of(
            a,
        ) < key_of(b) <==> magnitude(a) > magnitude(b)),
        !is_not_a_number(a) && !is_not_a_number(b) && is_negative(a) && !is_negative(b) ==> (
        key_of(a) < key_of(b) <==> magnitude(a) > 0 || magnitude(b) > 0),
        !is_not_a_number(a) && !is_not_a_number(b) ==> (key_of(a) == key_of(b) <==> a == b || (
        magnitude(a) == 0 && magnitude(b) == 0)),
        is_not_a_number(a) && !is_not_a_number(b) ==> key_of(b) < key_of(a),
        is_not_a_number(a) && is_not_a_number(b) ==> key_of(a) == key_of(b),
{
}

} // verus!
