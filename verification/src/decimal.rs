//! From a decimal number to the nearest double, in integers alone.
//!
//! A number `d · 10^e` is scaled by 2^1076, which makes every double a
//! whole multiple of 4, and cut to whole units; the double is read off the
//! bits of that integer.

use vstd::prelude::*;
use vstd::arithmetic::div_mod::{
    lemma_breakdown, lemma_div_denominator, lemma_fundamental_div_mod_converse,
    lemma_multiply_divide_lt,
};
use crate::double::{INFINITY_BITS, SIGN_BIT};
use crate::natural::{
    base, div_small, lemma_base_power, lemma_power_adds, lemma_power_base_increases,
    lemma_power_increases, lemma_power_of_power,
    lemma_power_positive, lemma_powers_of_two, lemma_value_split, lemma_value_zero, mul_small,
    power, shift_limbs, value,
};

verus! {

/// The number of bits of `n`: the least `k` with `n < 2^k`.
pub open spec fn bit_length(n: nat) -> nat
    decreases n,
{
    if n == 0 {
        0
    } else {
        1 + bit_length(n / 2)
    }
}

/// The number `d · 10^e · 2^1076`, cut to a whole number, and whether
/// nothing was cut off.
pub open spec fn scaled(d: nat, e: int) -> (nat, bool) {
    if e >= 0 {
        (d * power(10, e as nat) * power(2, 1076), true)
    } else {
        let numerator = d * power(2, 1076);
        let denominator = power(10, (-e) as nat);
        (numerator / denominator, numerator % denominator == 0)
    }
}

/// The bits, without the sign, of the double nearest to `x / 2^1076`, where
/// `n` is `x` cut to a whole number and `exact` says that nothing was cut
/// off. Of two doubles equally near, the one with an even fraction is
/// taken; what is beyond the greatest double becomes infinity.
///
/// The double keeps the 53 leading bits of `n`, and at least the last two
/// bits go: `p` bits are dropped, the first of them decides with the rest
/// whether the kept bits are rounded up, and the exponent field is `p - 2`
/// plus the carry of the leading bit.
pub open spec fn rounded(n: nat, exact: bool) -> u64 {
    let len = bit_length(n);
    let p: nat = if len > 55 {
        (len - 53) as nat
    } else {
        2
    };
    let guarded = n / power(2, (p - 1) as nat);
    let rest = n % power(2, (p - 1) as nat) != 0 || !exact;
    let kept = guarded / 2;
    let up = guarded % 2 == 1 && (rest || kept % 2 == 1);
    let bits = (p - 2) * 0x10_0000_0000_0000 + kept + if up {
        1nat
    } else {
        0nat
    };
    if bits >= INFINITY_BITS {
        INFINITY_BITS
    } else {
        bits as u64
    }
}

/// The exponent, held to the range in which it matters: above 400 every
/// number but zero is beyond the doubles, and `digits` digits times
/// `10^-(digits + 1100)` are below the least of them.
pub open spec fn clamped(e: int, digits: nat) -> int {
    if e > 400 {
        400
    } else if e < -(digits + 1100) {
        -(digits + 1100)
    } else {
        e
    }
}

/// The bits of the double nearest to `d · 10^e`, with the sign given, where
/// `d` was written with `digits` digits.
pub open spec fn double_of_decimal(negative: bool, d: nat, e: int, digits: nat) -> u64 {
    let (n, exact) = scaled(d, clamped(e, digits));
    (rounded(n, exact) + if negative {
        SIGN_BIT
    } else {
        0
    }) as u64
}

/// The number that a string of ASCII digits stands for.
pub open spec fn digits_value(s: Seq<u8>) -> nat
    decreases s.len(),
{
    if s.len() == 0 {
        0
    } else {
        digits_value(s.drop_last()) * 10 + (s.last() - 48) as nat
    }
}

/// Every byte is an ASCII digit.
pub open spec fn all_digits(s: Seq<u8>) -> bool {
    forall|i: int| 0 <= i < s.len() ==> 48 <= #[trigger] s[i] <= 57
}

/// A number above 0 of `k` bits is from `2^(k-1)` up to below `2^k`.
pub proof fn lemma_bit_length_bounds(n: nat)
    requires
        n > 0,
    ensures
        power(2, (bit_length(n) - 1) as nat) <= n < power(2, bit_length(n)),
        bit_length(n) >= 1,
    decreases n,
{
    if n == 1 {
        assert(bit_length(1) == 1 + bit_length(0));
        reveal_with_fuel(power, 2);
    } else {
        lemma_bit_length_bounds(n / 2);
        let k = bit_length(n / 2);
        assert(power(2, k) == 2 * power(2, (k - 1) as nat));
        assert(power(2, k + 1) == 2 * power(2, k));
    }
}

/// A number below `2^k` has at most `k` bits.
pub proof fn lemma_bit_length_below(n: nat, k: nat)
    requires
        n < power(2, k),
    ensures
        bit_length(n) <= k,
{
    if n > 0 {
        lemma_bit_length_bounds(n);
        if bit_length(n) > k {
            lemma_power_increases(2, k, (bit_length(n) - 1) as nat);
        }
    }
}

/// Shifting a number up by `j` bits adds `j` to its length.
pub proof fn lemma_bit_length_shift(h: nat, j: nat, lo: nat)
    requires
        h >= 1,
        lo < power(2, j),
    ensures
        bit_length(h * power(2, j) + lo) == bit_length(h) + j,
    decreases j,
{
    if j == 0 {
        assert(h * power(2, 0) + lo == h) by (nonlinear_arith)
            requires
                power(2, 0) == 1,
                lo == 0,
        ;
    } else {
        let p = power(2, (j - 1) as nat);
        let n = h * power(2, j) + lo;
        assert(power(2, j) == 2 * p);
        lemma_power_positive(2, (j - 1) as nat);
        assert(n == (h * p + lo / 2) * 2 + lo % 2) by (nonlinear_arith)
            requires
                n == h * (2 * p) + lo,
        ;
        lemma_fundamental_div_mod_converse(
            n as int,
            2,
            (h * p + lo / 2) as int,
            (lo % 2) as int,
        );
        assert(n >= 1) by (nonlinear_arith)
            requires
                n == h * (2 * p) + lo,
                h >= 1,
                p >= 1,
        ;
        lemma_bit_length_shift(h, (j - 1) as nat, lo / 2);
    }
}

/// The place of the highest limb that is not zero.
pub(crate) fn top_limb(limbs: &Vec<u32>) -> (r: Option<usize>)
    ensures
        match r {
            Some(k) => k < limbs.len() && limbs[k as int] != 0 && forall|j: int|
                k < j < limbs.len() ==> limbs[j] == 0,
            None => value(limbs@) == 0,
        },
{
    let mut i: usize = limbs.len();
    while i > 0
        invariant
            i <= limbs.len(),
            forall|j: int| i <= j < limbs.len() ==> limbs[j] == 0,
        decreases i,
    {
        i -= 1;
        if limbs[i] != 0 {
            return Some(i);
        }
    }
    proof {
        lemma_value_zero(limbs@);
    }
    None
}

/// The number of bits of a limb.
fn limb_length(x: u32) -> (r: u32)
    ensures
        r == bit_length(x as nat),
        r <= 32,
{
    let mut n: u32 = 0;
    let mut rest: u32 = x;
    proof {
        lemma_powers_of_two();
        lemma_bit_length_below(x as nat, 32);
    }
    while rest > 0
        invariant
            n + bit_length(rest as nat) == bit_length(x as nat),
            bit_length(x as nat) <= 32,
        decreases rest,
    {
        rest = rest / 2;
        n += 1;
    }
    n
}

/// Two to the power `b`.
pub(crate) fn two_to(b: u32) -> (r: u128)
    requires
        b < 64,
    ensures
        r == power(2, b as nat),
        r >= 1,
{
    let mut r: u128 = 1;
    let mut i: u32 = 0;
    while i < b
        invariant
            i <= b,
            b < 64,
            r == power(2, i as nat),
            r >= 1,
        decreases b - i,
    {
        proof {
            lemma_power_increases(2, (i + 1) as nat, 63);
            lemma_powers_of_two();
            assert(power(2, (i + 1) as nat) == 2 * power(2, i as nat));
        }
        r = r * 2;
        i += 1;
    }
    r
}

/// Whether the limbs below `a` are all zero.
fn low_is_zero(limbs: &Vec<u32>, a: usize) -> (r: bool)
    requires
        a <= limbs.len(),
    ensures
        r == (value(limbs@.subrange(0, a as int)) == 0),
{
    let mut i: usize = 0;
    while i < a
        invariant
            i <= a,
            a <= limbs.len(),
            forall|j: int| 0 <= j < i ==> limbs[j] == 0,
        decreases a - i,
    {
        if limbs[i] != 0 {
            proof {
                lemma_value_zero(limbs@.subrange(0, a as int));
                assert(limbs@.subrange(0, a as int)[i as int] != 0);
            }
            return false;
        }
        i += 1;
    }
    proof {
        lemma_value_zero(limbs@.subrange(0, a as int));
    }
    true
}

/// The value of the limbs from `a` up, where at most three of them are not
/// zero.
fn high_part(limbs: &Vec<u32>, a: usize, k: usize) -> (r: u128)
    requires
        a <= k < limbs.len(),
        k - a <= 2,
        forall|j: int| k < j < limbs.len() ==> limbs[j] == 0,
    ensures
        r == value(limbs@.subrange(a as int, limbs.len() as int)),
{
    let n = limbs.len();
    let mut hi: u128 = 0;
    let mut idx: usize = k + 1;
    proof {
        lemma_value_zero(limbs@.subrange(k as int + 1, n as int));
        assert(power(base(), 0) == 1);
    }
    while idx > a
        invariant
            a <= idx <= k + 1,
            k < n,
            n == limbs.len(),
            k - a <= 2,
            hi == value(limbs@.subrange(idx as int, n as int)),
            hi < power(base(), (k + 1 - idx) as nat),
        decreases idx,
    {
        proof {
            assert(power(base(), 2) == 0x1_0000_0000_0000_0000) by {
                reveal_with_fuel(power, 3);
            }
            lemma_power_increases(base(), (k + 1 - idx) as nat, 2);
        }
        idx -= 1;
        let x: u32 = limbs[idx];
        proof {
            assert(limbs@.subrange(idx as int, n as int).drop_first() =~= limbs@.subrange(
                idx as int + 1,
                n as int,
            ));
            assert(power(base(), (k + 1 - idx) as nat) == base() * power(
                base(),
                (k - idx) as nat,
            ));
            let bound = power(base(), (k - idx) as nat);
            assert(x + base() * hi < base() * bound) by (nonlinear_arith)
                requires
                    hi < bound,
                    x < base(),
            ;
        }
        hi = hi * 0x1_0000_0000 + x as u128;
    }
    hi
}

/// The length of a number whose highest limb that is not zero is at `k`.
proof fn lemma_length_from_top(limbs: Seq<u32>, k: int)
    requires
        0 <= k < limbs.len(),
        limbs[k] != 0,
        forall|j: int| k < j < limbs.len() ==> limbs[j] == 0,
    ensures
        bit_length(value(limbs)) == 32 * k + bit_length(limbs[k] as nat),
        value(limbs) > 0,
{
    lemma_value_split(limbs, k);
    let high = limbs.subrange(k, limbs.len() as int);
    lemma_value_zero(high.drop_first());
    assert(value(high) == limbs[k] as nat);
    lemma_base_power(k as nat);
    lemma_bit_length_shift(limbs[k] as nat, (32 * k) as nat, value(limbs.subrange(0, k)));
    assert(power(base(), k as nat) * value(high) == value(high) * power(2, (32 * k) as nat))
        by (nonlinear_arith)
        requires
            power(base(), k as nat) == power(2, (32 * k) as nat),
    ;
    lemma_bit_length_bounds(value(limbs.subrange(0, k)) + limbs[k] as nat * power(2, (32 * k) as nat));
}

/// Where more than 2048 bits are dropped, the double is infinity.
pub proof fn lemma_rounded_infinite(n: nat, exact: bool)
    requires
        bit_length(n) >= 2049 + 53,
    ensures
        rounded(n, exact) == INFINITY_BITS,
{
    let p = (bit_length(n) - 53) as nat;
    let guarded = n / power(2, (p - 1) as nat);
    let rest = n % power(2, (p - 1) as nat) != 0 || !exact;
    let kept = guarded / 2;
    let up = guarded % 2 == 1 && (rest || kept % 2 == 1);
    let bits = (p - 2) * 0x10_0000_0000_0000 + kept + if up {
        1nat
    } else {
        0nat
    };
    let field = (p - 2) * 0x10_0000_0000_0000;
    assert(field >= 0x7FF0_0000_0000_0000) by (nonlinear_arith)
        requires
            field == (p - 2) * 0x10_0000_0000_0000,
            p - 2 >= 2047,
    ;
    assert(INFINITY_BITS == 0x7FF0_0000_0000_0000);
    lemma_power_positive(2, (p - 1) as nat);
    assert(guarded >= 0);
    assert(kept >= 0);
    assert(bits >= field);
    assert(bits >= INFINITY_BITS);
    assert(bit_length(n) > 55);
}

/// What is cut off below bit `32·a + b`, read off the limbs: the quotient
/// is the quotient of the high limbs, and the remainder is zero exactly if
/// the high limbs leave none and the low limbs are zero.
proof fn lemma_cut(limbs: Seq<u32>, a: int, b: nat)
    requires
        0 <= a <= limbs.len(),
    ensures
        value(limbs) / power(2, (32 * a + b) as nat) == value(
            limbs.subrange(a, limbs.len() as int),
        ) / power(2, b),
        (value(limbs) % power(2, (32 * a + b) as nat) == 0) == (value(
            limbs.subrange(a, limbs.len() as int),
        ) % power(2, b) == 0 && value(limbs.subrange(0, a)) == 0),
{
    let n = value(limbs);
    let pa = power(base(), a as nat);
    let pb = power(2, b);
    let ps = power(2, (32 * a + b) as nat);
    let hi = value(limbs.subrange(a, limbs.len() as int));
    let lo = value(limbs.subrange(0, a));
    lemma_value_split(limbs, a);
    lemma_base_power(a as nat);
    lemma_power_adds(2, (32 * a) as nat, b);
    assert(ps == pa * pb);
    lemma_power_positive(base(), a as nat);
    lemma_power_positive(2, b);
    lemma_div_denominator(n as int, pa as int, pb as int);
    lemma_breakdown(n as int, pa as int, pb as int);
    let cut = hi % pb;
    assert(n % ps == pa * cut + lo);
    assert((n % ps == 0) == (cut == 0 && lo == 0)) by (nonlinear_arith)
        requires
            n % ps == pa * cut + lo,
            pa > 0,
            cut >= 0,
            lo >= 0,
    ;
}

/// What is kept of a number of `len` bits above bit `s` has `len - s` bits.
proof fn lemma_kept_bound(n: nat, s: nat, width: nat)
    requires
        n > 0,
        s <= bit_length(n) <= s + width,
    ensures
        n / power(2, s) < power(2, width),
{
    let len = bit_length(n);
    lemma_bit_length_bounds(n);
    lemma_power_adds(2, s, (len - s) as nat);
    lemma_power_positive(2, s);
    lemma_multiply_divide_lt(n as int, power(2, s) as int, power(2, (len - s) as nat) as int);
    lemma_power_increases(2, (len - s) as nat, width);
}

/// Reads the double off a scaled number.
pub fn round_limbs(limbs: &Vec<u32>, exact: bool) -> (r: u64)
    ensures
        r == rounded(value(limbs@), exact),
        r <= INFINITY_BITS,
{
    let ghost n = value(limbs@);
    match top_limb(limbs) {
        None => {
            proof {
                lemma_powers_of_two();
                assert(0nat / 2 == 0 && 0nat % 2 == 0);
            }
            0
        },
        Some(k) => {
            let top_bits = limb_length(limbs[k]);
            let len: u128 = 32 * (k as u128) + top_bits as u128;
            proof {
                lemma_length_from_top(limbs@, k as int);
                lemma_bit_length_bounds(limbs[k as int] as nat);
            }
            let p: u128 = if len > 55 {
                len - 53
            } else {
                2
            };
            if p - 2 >= 2047 {
                proof {
                    lemma_rounded_infinite(n, exact);
                }
                return INFINITY_BITS;
            }
            let s: u128 = p - 1;
            let a: usize = (s / 32) as usize;
            let b: u32 = (s % 32) as u32;
            let low_zero = low_is_zero(limbs, a);
            let hi = high_part(limbs, a, k);
            let pb = two_to(b);
            let guarded: u128 = hi / pb;
            let cut: u128 = hi % pb;
            proof {
                lemma_cut(limbs@, a as int, b as nat);
                assert((32 * a + b) as nat == s as nat);
                lemma_kept_bound(n, s as nat, 54);
                lemma_powers_of_two();
            }
            let rest = cut != 0 || !low_zero || !exact;
            let kept: u64 = (guarded / 2) as u64;
            let up = guarded % 2 == 1 && (rest || kept % 2 == 1);
            let field: u64 = (p - 2) as u64;
            assert(field * 0x10_0000_0000_0000 <= 2046 * 0x10_0000_0000_0000) by (nonlinear_arith)
                requires
                    field <= 2046,
            ;
            let bits: u64 = field * 0x10_0000_0000_0000 + kept + if up {
                1
            } else {
                0
            };
            if bits >= INFINITY_BITS {
                INFINITY_BITS
            } else {
                bits
            }
        },
    }
}

/// The scale in limbs: 2^1076 is 33 limbs and 20 bits.
proof fn lemma_scale()
    ensures
        power(base(), 33) * 0x10_0000 == power(2, 1076),
{
    lemma_base_power(33);
    lemma_power_adds(2, 1056, 20);
    lemma_powers_of_two();
}

/// Dividing by ten once more: the quotient by `10^t` divided by ten is the
/// quotient by `10^(t+1)`, and nothing is cut off in all exactly if nothing
/// was before and nothing is now.
proof fn lemma_divide_on(numerator: nat, t: nat)
    ensures
        numerator / power(10, t + 1) == (numerator / power(10, t)) / 10,
        (numerator % power(10, t + 1) == 0) == (numerator % power(10, t) == 0 && (numerator
            / power(10, t)) % 10 == 0),
{
    let p = power(10, t);
    lemma_power_positive(10, t);
    assert(power(10, t + 1) == 10 * p);
    assert(10 * p == p * 10) by (nonlinear_arith);
    lemma_div_denominator(numerator as int, p as int, 10);
    lemma_breakdown(numerator as int, p as int, 10);
    let digit = (numerator / p) % 10;
    assert((p * digit + numerator % p == 0) == (numerator % p == 0 && digit == 0))
        by (nonlinear_arith)
        requires
            p > 0,
            digit >= 0,
            numerator % p >= 0,
    ;
}

/// The limbs of the number that a string of digits stands for.
pub(crate) fn limbs_of_digits(digits: &[u8]) -> (r: Vec<u32>)
    requires
        all_digits(digits@),
    ensures
        value(r@) == digits_value(digits@),
{
    let mut limbs: Vec<u32> = Vec::new();
    let mut i: usize = 0;
    proof {
        assert(digits@.subrange(0, 0) =~= Seq::<u8>::empty());
    }
    while i < digits.len()
        invariant
            i <= digits.len(),
            all_digits(digits@),
            value(limbs@) == digits_value(digits@.subrange(0, i as int)),
        decreases digits.len() - i,
    {
        let d: u8 = digits[i];
        proof {
            assert(digits@.subrange(0, i as int + 1).drop_last() =~= digits@.subrange(0, i as int));
        }
        mul_small(&mut limbs, 10, (d - 48) as u32);
        i += 1;
    }
    proof {
        assert(digits@.subrange(0, digits.len() as int) =~= digits@);
    }
    limbs
}

/// The double nearest to the number that `digits` stands for, times ten to
/// the power `e`.
pub fn decimal_to_double(negative: bool, digits: &[u8], e: i128) -> (r: u64)
    requires
        all_digits(digits@),
    ensures
        r == double_of_decimal(negative, digits_value(digits@), e as int, digits@.len()),
{
    let ghost d = digits_value(digits@);
    let ghost scale = power(2, 1076);
    let limbs = limbs_of_digits(digits);
    let mut limbs = shift_limbs(&limbs, 33);
    mul_small(&mut limbs, 0x10_0000, 0);
    proof {
        lemma_scale();
        assert(value(limbs@) == d * scale) by (nonlinear_arith)
            requires
                value(limbs@) == d * power(base(), 33) * 0x10_0000 + 0,
                power(base(), 33) * 0x10_0000 == scale,
        ;
    }
    let lowest: i128 = -(digits.len() as i128 + 1100);
    let ec: i128 = if e > 400 {
        400
    } else if e < lowest {
        lowest
    } else {
        e
    };
    assert(ec == clamped(e as int, digits@.len()));
    let mut exact = true;
    if ec >= 0 {
        let mut t: i128 = 0;
        proof {
            assert(d * power(10, 0) * scale == d * scale) by (nonlinear_arith)
                requires
                    power(10, 0) == 1,
            ;
        }
        while t < ec
            invariant
                0 <= t <= ec,
                value(limbs@) == d * power(10, t as nat) * scale,
            decreases ec - t,
        {
            mul_small(&mut limbs, 10, 0);
            proof {
                let p = power(10, t as nat);
                assert(power(10, (t + 1) as nat) == 10 * p);
                assert(d * p * scale * 10 + 0 == d * (10 * p) * scale) by (nonlinear_arith);
            }
            t += 1;
        }
    } else {
        let mut t: i128 = 0;
        let count: i128 = -ec;
        let ghost numerator = d * scale;
        proof {
            assert(power(10, 0) == 1);
            assert(numerator / 1 == numerator);
            assert(numerator % 1 == 0);
        }
        while t < count
            invariant
                0 <= t <= count,
                numerator == d * scale,
                value(limbs@) == numerator / power(10, t as nat),
                exact == (numerator % power(10, t as nat) == 0),
            decreases count - t,
        {
            let ghost before = value(limbs@);
            let rem = div_small(&mut limbs, 10);
            proof {
                lemma_fundamental_div_mod_converse(
                    before as int,
                    10,
                    value(limbs@) as int,
                    rem as int,
                );
                lemma_divide_on(numerator, t as nat);
            }
            if rem != 0 {
                exact = false;
            }
            t += 1;
        }
    }
    let magnitude = round_limbs(&limbs, exact);
    if negative {
        magnitude + SIGN_BIT
    } else {
        magnitude
    }
}

/// Nothing rounds to zero.
pub proof fn lemma_rounded_zero(exact: bool)
    ensures
        rounded(0, exact) == 0,
{
    assert(bit_length(0) == 0);
    lemma_powers_of_two();
    assert(0nat / power(2, 1) == 0);
    assert(0nat % power(2, 1) == 0);
}

/// A number of at least `2^k` has more than `k` bits.
pub proof fn lemma_bit_length_above(n: nat, k: nat)
    requires
        n >= power(2, k),
    ensures
        bit_length(n) > k,
{
    lemma_power_positive(2, k);
    lemma_bit_length_bounds(n);
    if bit_length(n) <= k {
        lemma_power_increases(2, bit_length(n), k);
    }
}

/// The bits of the double nearest to `d · 10^e`, with the sign given,
/// whatever the exponent.
pub open spec fn nearest_double(negative: bool, d: nat, e: int) -> u64 {
    let (n, exact) = scaled(d, e);
    (rounded(n, exact) + if negative {
        SIGN_BIT
    } else {
        0
    }) as u64
}

/// Holding the exponent to its range changes nothing: the double of a
/// number that is written with `digits` digits is the double nearest to it,
/// whatever its exponent. Beyond the range the double is infinity, or
/// zero.
pub proof fn law_exponent_range(negative: bool, d: nat, e: int, digits: nat)
    requires
        d < power(10, digits),
    ensures
        double_of_decimal(negative, d, e, digits) == nearest_double(negative, d, e),
{
    let scale = power(2, 1076);
    lemma_power_positive(2, 1076);
    if e > 400 {
        if d == 0 {
            assert(0 * power(10, e as nat) * scale == 0) by (nonlinear_arith);
            assert(0 * power(10, 400) * scale == 0) by (nonlinear_arith);
        } else {
            lemma_beyond(d, e as nat);
            lemma_beyond(d, 400);
        }
    } else if e < -(digits + 1100) {
        lemma_below(d, (-e) as nat, digits);
        lemma_below(d, digits + 1100, digits);
        let (n, exact) = scaled(d, e);
        let (n2, exact2) = scaled(d, -(digits + 1100));
        lemma_rounded_zero(exact);
        lemma_rounded_zero(exact2);
    }
}

/// A number above 0 times `10^e`, for `e` from 400 on, is beyond the
/// doubles.
proof fn lemma_beyond(d: nat, e: nat)
    requires
        d >= 1,
        e >= 400,
    ensures
        rounded(d * power(10, e) * power(2, 1076), true) == INFINITY_BITS,
{
    let n = d * power(10, e) * power(2, 1076);
    lemma_power_increases(10, 400, e);
    lemma_power_base_increases(8, 10, 400);
    assert(power(2, 3) == 8) by {
        reveal_with_fuel(power, 4);
    }
    lemma_power_of_power(2, 3, 400);
    lemma_power_adds(2, 1200, 1076);
    assert(n >= power(2, 1200) * power(2, 1076)) by (nonlinear_arith)
        requires
            n == d * power(10, e) * power(2, 1076),
            d >= 1,
            power(10, e) >= power(2, 1200),
            power(2, 1076) >= 0,
    ;
    lemma_bit_length_above(n, 2276);
    lemma_rounded_infinite(n, true);
}

/// A number below `10^digits` over `10^k`, for `k` from `digits + 1100`
/// on, scaled, is cut to nothing.
proof fn lemma_below(d: nat, k: nat, digits: nat)
    requires
        d < power(10, digits),
        k >= digits + 1100,
    ensures
        (d * power(2, 1076)) / power(10, k) == 0,
{
    let numerator = d * power(2, 1076);
    lemma_power_base_increases(2, 10, 1076);
    lemma_power_adds(10, digits, 1076);
    lemma_power_increases(10, digits + 1076, k);
    lemma_power_positive(10, k);
    lemma_power_positive(2, 1076);
    assert(numerator < power(10, digits) * power(10, 1076)) by (nonlinear_arith)
        requires
            numerator == d * power(2, 1076),
            d < power(10, digits),
            0 < power(2, 1076) <= power(10, 1076),
    ;
    vstd::arithmetic::div_mod::lemma_basic_div(numerator as int, power(10, k) as int);
}

/// A number written with digits is below ten to the power of their count.
pub proof fn lemma_digits_value_bound(s: Seq<u8>)
    requires
        all_digits(s),
    ensures
        digits_value(s) < power(10, s.len()),
    decreases s.len(),
{
    if s.len() > 0 {
        let front = s.drop_last();
        assert forall|i: int| 0 <= i < front.len() implies 48 <= #[trigger] front[i] <= 57 by {
            assert(front[i] == s[i]);
        }
        lemma_digits_value_bound(front);
        assert(power(10, s.len()) == 10 * power(10, front.len()));
    }
}

} // verus!
