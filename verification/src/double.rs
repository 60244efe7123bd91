//! Numbers: a double is held as its 64 bits, and what is said of it is said
//! in integers.

use vstd::prelude::*;
use crate::natural::power;

verus! {

/// The bits of the sign.
pub const SIGN_BIT: u64 = 0x8000_0000_0000_0000;

/// The bits of positive infinity.
pub const INFINITY_BITS: u64 = 0x7FF0_0000_0000_0000;

/// The bits but for the sign.
pub open spec fn magnitude(bits: u64) -> u64 {
    (bits % SIGN_BIT) as u64
}

/// The sign bit is set.
pub open spec fn is_negative(bits: u64) -> bool {
    bits >= SIGN_BIT
}

/// The bits are those of a NaN: all ones in the exponent, and a fraction
/// that is not zero.
pub open spec fn is_nan(bits: u64) -> bool {
    magnitude(bits) > INFINITY_BITS
}

/// The bits are those of a number: neither an infinity nor a NaN.
pub open spec fn is_finite(bits: u64) -> bool {
    magnitude(bits) < INFINITY_BITS
}

/// The bits are those of zero, of either sign.
pub open spec fn is_zero(bits: u64) -> bool {
    magnitude(bits) == 0
}

/// Equality of two doubles: a NaN equals nothing, the two zeros equal each
/// other, and any other double equals itself alone.
pub open spec fn double_eq(a: u64, b: u64) -> bool {
    !is_nan(a) && !is_nan(b) && (a == b || (is_zero(a) && is_zero(b)))
}

/// The bits but for the sign.
pub fn magnitude_of(bits: u64) -> (r: u64)
    ensures
        r == magnitude(bits),
{
    bits % SIGN_BIT
}

/// Whether the bits are those of a NaN.
pub fn double_is_nan(bits: u64) -> (r: bool)
    ensures
        r == is_nan(bits),
{
    magnitude_of(bits) > INFINITY_BITS
}

/// Compares two doubles.
pub fn doubles_equal(a: u64, b: u64) -> (r: bool)
    ensures
        r == double_eq(a, b),
{
    if double_is_nan(a) || double_is_nan(b) {
        false
    } else {
        a == b || (magnitude_of(a) == 0 && magnitude_of(b) == 0)
    }
}

/// The whole number of which a double is a multiple by a power of two: the
/// fraction, with the leading one where the exponent field is not 0.
pub open spec fn mantissa(bits: u64) -> nat {
    let field = magnitude(bits) / 0x10_0000_0000_0000;
    let fraction = magnitude(bits) % 0x10_0000_0000_0000;
    if field == 0 {
        fraction as nat
    } else {
        (0x10_0000_0000_0000 + fraction) as nat
    }
}

/// The power of two by which the mantissa is to be multiplied.
pub open spec fn binary_exponent(bits: u64) -> int {
    let field = magnitude(bits) / 0x10_0000_0000_0000;
    if field == 0 {
        -1074
    } else {
        field - 1075
    }
}


/// The whole part of the double without its sign, where it is a number.
pub open spec fn truncated(bits: u64) -> nat {
    let m = mantissa(bits);
    let e = binary_exponent(bits);
    if e >= 0 {
        m * power(2, e as nat)
    } else {
        m / power(2, (-e) as nat)
    }
}

/// The double as a 32-bit integer: its whole part, with the sign, held to
/// the range; 0 for a NaN.
pub open spec fn int_twin(bits: u64) -> i32 {
    if is_nan(bits) {
        0
    } else if !is_finite(bits) {
        if is_negative(bits) {
            i32::MIN
        } else {
            i32::MAX
        }
    } else if is_negative(bits) {
        if truncated(bits) >= 0x8000_0000 {
            i32::MIN
        } else {
            (-(truncated(bits) as int)) as i32
        }
    } else {
        if truncated(bits) >= 0x7FFF_FFFF {
            i32::MAX
        } else {
            truncated(bits) as i32
        }
    }
}

/// The double as a 32-bit integer.
pub fn double_to_int(bits: u64) -> (r: i32)
    ensures
        r == int_twin(bits),
{
    let mag = magnitude_of(bits);
    let negative = bits >= SIGN_BIT;
    if mag > INFINITY_BITS {
        return 0;
    }
    if mag == INFINITY_BITS {
        return if negative {
            i32::MIN
        } else {
            i32::MAX
        };
    }
    let field: u64 = mag / 0x10_0000_0000_0000;
    let fraction: u64 = mag % 0x10_0000_0000_0000;
    let m: u64 = if field == 0 {
        fraction
    } else {
        0x10_0000_0000_0000 + fraction
    };
    let e2: i32 = if field == 0 {
        -1074
    } else {
        field as i32 - 1075
    };
    let whole: u64 = if e2 >= 0 {
        proof {
            crate::natural::lemma_power_positive(2, e2 as nat);
            assert(m * power(2, e2 as nat) >= 0x8000_0000) by (nonlinear_arith)
                requires
                    m >= 0x10_0000_0000_0000,
                    power(2, e2 as nat) >= 1,
            ;
        }
        0x8000_0000
    } else if -e2 >= 53 {
        proof {
            crate::natural::lemma_powers_of_two();
            crate::natural::lemma_power_increases(2, 53, (-e2) as nat);
            vstd::arithmetic::div_mod::lemma_basic_div(m as int, power(2, (-e2) as nat) as int);
        }
        0
    } else {
        let mut divisor: u64 = 1;
        let mut i: i32 = 0;
        while i < -e2
            invariant
                0 <= i <= -e2 < 53,
                divisor == power(2, i as nat),
            decreases -e2 - i,
        {
            proof {
                crate::natural::lemma_powers_of_two();
                crate::natural::lemma_power_increases(2, (i + 1) as nat, 53);
                assert(power(2, (i + 1) as nat) == 2 * power(2, i as nat));
            }
            divisor = divisor * 2;
            i += 1;
        }
        proof {
            crate::natural::lemma_power_positive(2, (-e2) as nat);
        }
        let t: u64 = m / divisor;
        if t >= 0x8000_0000 {
            0x8000_0000
        } else {
            t
        }
    };
    if negative {
        if whole >= 0x8000_0000 {
            i32::MIN
        } else {
            -(whole as i32)
        }
    } else {
        if whole >= 0x7FFF_FFFF {
            i32::MAX
        } else {
            whole as i32
        }
    }
}

} // verus!
