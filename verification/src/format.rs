//! From a double to its text: the fewest digits that read back as the same
//! double.

use vstd::prelude::*;
use vstd::arithmetic::div_mod::lemma_fundamental_div_mod_converse;
use crate::decimal::{all_digits, digits_value, limbs_of_digits, top_limb, two_to};
use crate::double::{
    binary_exponent, is_finite, is_negative, is_zero, magnitude, magnitude_of, mantissa,
    INFINITY_BITS,
};
use crate::error::JsonError;
use crate::lex::{read_number, scan_number};
use crate::natural::{
    base, div_small, lemma_base_power, lemma_power_adds, lemma_powers_of_two, lemma_value_zero,
    limbs_of, mul_small, power, shift_limbs, value,
};

verus! {

/// The double without its sign, written out in full: a whole number and the
/// power of ten by which it is to be multiplied. A negative power of two
/// is a power of five over a power of ten.
pub open spec fn exact_decimal(bits: u64) -> (nat, int) {
    decimal_of_binary(mantissa(bits), binary_exponent(bits))
}

/// The number `m · 2^e` as a whole number and the power of ten by which it
/// is to be multiplied.
pub open spec fn decimal_of_binary(m: nat, e: int) -> (nat, int) {
    if e >= 0 {
        (m * power(2, e as nat), 0)
    } else {
        (m * power(5, (-e) as nat), e)
    }
}

/// The bits of the double nearest to `m · 2^e`, with the sign given.
pub open spec fn double_of_binary(negative: bool, m: nat, e: int) -> u64 {
    let (d, e10) = decimal_of_binary(m, e);
    crate::decimal::double_of_decimal(negative, d, e10, decimal_digits(d).len())
}

/// The decimal digits of a number, in ASCII, without leading zeros.
pub open spec fn decimal_digits(n: nat) -> Seq<u8>
    decreases n,
{
    if n < 10 {
        seq![(48 + n) as u8]
    } else {
        decimal_digits(n / 10).push((48 + n % 10) as u8)
    }
}

/// `count` zeros, in ASCII.
pub open spec fn zeros(count: nat) -> Seq<u8> {
    Seq::new(count, |i: int| 48u8)
}

/// The text of `c · 10^e`, for `c` above 0. A whole number below 10^21 is
/// written out; a number from 10^-6 on is written with a point; any other
/// number has one digit before the point and an exponent with its sign.
pub open spec fn layout(c: nat, e: int) -> Seq<u8> {
    let digits = decimal_digits(c);
    let k = digits.len() as int;
    let leading = e + k - 1;
    if e >= 0 && leading <= 20 {
        digits + zeros(e as nat)
    } else if e < 0 && leading >= 0 {
        digits.subrange(0, k + e) + seq![46u8] + digits.subrange(k + e, k)
    } else if e < 0 && leading >= -6 {
        seq![48u8, 46u8] + zeros((-leading - 1) as nat) + digits
    } else {
        digits.subrange(0, 1) + (if k > 1 {
            seq![46u8] + digits.subrange(1, k)
        } else {
            Seq::empty()
        }) + seq![101u8] + (if leading < 0 {
            seq![45u8] + decimal_digits((-leading) as nat)
        } else {
            seq![43u8] + decimal_digits(leading as nat)
        })
    }
}

/// The number made of the first `p` of the digits, rounded up where the
/// next digit is 5 or more.
pub open spec fn candidate(digits: Seq<u8>, p: int) -> nat {
    digits_value(digits.subrange(0, p)) + if p < digits.len() && digits[p] >= 53 {
        1nat
    } else {
        0nat
    }
}

/// The text of the first `p` of the digits, rounded, with what is left of
/// the power of ten `e` that goes with all the digits. Where rounding up
/// leaves a zero at the end, the zero goes into the power of ten.
pub open spec fn candidate_text(digits: Seq<u8>, e: int, p: int) -> Seq<u8> {
    let c = candidate(digits, p);
    if c >= 10 && c % 10 == 0 {
        layout(c / 10, e + digits.len() - p + 1)
    } else {
        layout(c, e + digits.len() - p)
    }
}

/// The text reads as the number with the bits `bits`, and all of it.
pub open spec fn reads_as(text: Seq<u8>, bits: u64) -> bool {
    read_number(text, 0) == Ok::<(u64, int), JsonError>((bits, text.len() as int))
}

/// The text of a double above 0 whose digits in full are `digits`, to be
/// multiplied by `10^e`: the first `p` digits, rounded, if they read back
/// as the double, and else what more digits give. All the digits are the
/// double itself.
pub open spec fn shortest_from(digits: Seq<u8>, e: int, bits: u64, p: int) -> Seq<u8>
    decreases digits.len() - p,
{
    if p >= digits.len() || p < 1 {
        layout(digits_value(digits), e)
    } else {
        let text = candidate_text(digits, e, p);
        if reads_as(text, bits) {
            text
        } else {
            shortest_from(digits, e, bits, p + 1)
        }
    }
}

/// The text of a number. A double that is no number, infinite or not, is
/// written as `0`, and so are both zeros. Any other double is written with
/// the fewest digits that read back as the same double, behind a minus
/// where it is negative.
pub open spec fn number_text(bits: u64) -> Seq<u8> {
    if !is_finite(bits) || is_zero(bits) {
        seq![48u8]
    } else {
        let (d, e) = exact_decimal(bits);
        let text = shortest_from(decimal_digits(d), e, magnitude(bits), 1);
        if is_negative(bits) {
            seq![45u8] + text
        } else {
            text
        }
    }
}

/// The decimal digits are digits, and stand for the number.
pub proof fn lemma_decimal_digits(n: nat)
    ensures
        all_digits(decimal_digits(n)),
        digits_value(decimal_digits(n)) == n,
        decimal_digits(n).len() >= 1,
    decreases n,
{
    if n < 10 {
        let s = decimal_digits(n);
        assert(s.drop_last() =~= Seq::<u8>::empty());
        assert(digits_value(s.drop_last()) == 0);
    } else {
        lemma_decimal_digits(n / 10);
        let s = decimal_digits(n);
        assert(s.drop_last() =~= decimal_digits(n / 10));
    }
}

/// Five to the power 13, the greatest power of five in a limb.
pub const FIVE_13: u32 = 1220703125;

proof fn lemma_five_13()
    ensures
        power(5, 13) == FIVE_13,
{
    assert(power(5, 4) == 625 && power(5, 5) == 3125) by {
        reveal_with_fuel(power, 6);
    }
    lemma_power_adds(5, 4, 4);
    assert(power(5, 8) == 625 * 625);
    lemma_power_adds(5, 8, 5);
    assert(power(5, 13) == 390625 * 3125);
}

/// The limbs of `m · 2^e2` written out in full, and the power of ten that
/// goes with them.
fn binary_limbs(m: u64, e2: i32) -> (r: (Vec<u32>, i32))
    requires
        -1074 <= e2 <= 1023,
    ensures
        value(r.0@) == decimal_of_binary(m as nat, e2 as int).0,
        r.1 == decimal_of_binary(m as nat, e2 as int).1,
        -1074 <= r.1 <= 0,
{
    let limbs = limbs_of(m);
    if e2 >= 0 {
        let a: usize = (e2 / 32) as usize;
        let b: u32 = (e2 % 32) as u32;
        let mut limbs = shift_limbs(&limbs, a);
        let pb = two_to(b);
        proof {
            lemma_powers_of_two();
            crate::natural::lemma_power_increases(2, b as nat, 31);
            lemma_power_adds(2, 31, 1);
        }
        mul_small(&mut limbs, pb as u32, 0);
        proof {
            lemma_base_power(a as nat);
            lemma_power_adds(2, 32 * a as nat, b as nat);
            assert(32 * a as nat + b as nat == e2 as nat);
            assert(m * power(base(), a as nat) * pb + 0 == m * power(2, e2 as nat))
                by (nonlinear_arith)
                requires
                    power(base(), a as nat) * pb == power(2, e2 as nat),
            ;
        }
        (limbs, 0)
    } else {
        let mut limbs = limbs;
        let k: i32 = -e2;
        let mut t: i32 = 0;
        proof {
            assert(m * power(5, 0) == m) by (nonlinear_arith)
                requires
                    power(5, 0) == 1,
            ;
        }
        while t < k
            invariant
                0 <= t <= k <= 1074,
                value(limbs@) == m * power(5, t as nat),
            decreases k - t,
        {
            if k - t >= 13 {
                mul_small(&mut limbs, FIVE_13, 0);
                proof {
                    lemma_five_13();
                    lemma_power_adds(5, t as nat, 13);
                    let p = power(5, t as nat);
                    assert(m * p * FIVE_13 + 0 == m * (p * power(5, 13))) by (nonlinear_arith)
                        requires
                            power(5, 13) == FIVE_13,
                    ;
                }
                t += 13;
            } else {
                mul_small(&mut limbs, 5, 0);
                proof {
                    let p = power(5, t as nat);
                    assert(power(5, (t + 1) as nat) == 5 * p);
                    assert(m * p * 5 + 0 == m * (5 * p)) by (nonlinear_arith);
                }
                t += 1;
            }
        }
        (limbs, e2)
    }
}

/// The limbs of the double written out in full, and the power of ten that
/// goes with them.
fn exact_limbs(bits: u64) -> (r: (Vec<u32>, i32))
    requires
        is_finite(bits),
    ensures
        value(r.0@) == exact_decimal(bits).0,
        r.1 == exact_decimal(bits).1,
        -1074 <= r.1 <= 0,
{
    let mag = magnitude_of(bits);
    let field: u64 = mag / 0x10_0000_0000_0000;
    let fraction: u64 = mag % 0x10_0000_0000_0000;
    let m: u64 = if field == 0 {
        fraction
    } else {
        0x10_0000_0000_0000 + fraction
    };
    let e2: i32 = if field == 0 {
        -1074
    } else {
        field as i32 - 1075
    };
    binary_limbs(m, e2)
}

/// The double nearest to `m · 2^e2`, with the sign given.
pub fn binary_to_double(negative: bool, m: u64, e2: i32) -> (r: u64)
    requires
        -1074 <= e2 <= 1023,
    ensures
        r == double_of_binary(negative, m as nat, e2 as int),
{
    let (limbs, e10) = binary_limbs(m, e2);
    let ghost d = value(limbs@);
    let digits = to_decimal(limbs);
    proof {
        lemma_decimal_digits(d);
    }
    crate::decimal::decimal_to_double(negative, digits.as_slice(), e10 as i128)
}

/// The decimal digits of a number.
fn to_decimal(limbs: Vec<u32>) -> (r: Vec<u8>)
    ensures
        r@ == decimal_digits(value(limbs@)),
{
    let mut limbs = limbs;
    let ghost whole = value(limbs@);
    let mut low: Vec<u8> = Vec::new();
    let ghost mut tail: Seq<u8> = Seq::empty();
    proof {
        assert(decimal_digits(whole) + tail =~= decimal_digits(whole));
    }
    loop
        invariant_except_break
            decimal_digits(whole) == decimal_digits(value(limbs@)) + tail,
        invariant
            tail.len() == low.len(),
            forall|i: int| 0 <= i < tail.len() ==> tail[i] == low[low.len() - 1 - i],
        ensures
            decimal_digits(whole) == tail,
        decreases value(limbs@),
    {
        let ghost before = value(limbs@);
        let rem = div_small(&mut limbs, 10);
        let digit: u8 = 48 + rem as u8;
        low.push(digit);
        proof {
            lemma_fundamental_div_mod_converse(
                before as int,
                10,
                value(limbs@) as int,
                rem as int,
            );
            let longer = seq![digit] + tail;
            assert forall|i: int| 0 <= i < longer.len() implies longer[i] == low[low.len() - 1
                - i] by {
                if i > 0 {
                    assert(longer[i] == tail[i - 1]);
                }
            }
            if before < 10 {
                assert(decimal_digits(before) + tail =~= longer);
            } else {
                assert(decimal_digits(before) + tail =~= decimal_digits(before / 10) + longer);
            }
            tail = longer;
        }
        match top_limb(&limbs) {
            None => {
                break ;
            },
            Some(k) => {
                proof {
                    lemma_value_zero(limbs@);
                }
            },
        }
    }
    let n = low.len();
    let mut out: Vec<u8> = Vec::new();
    let mut i: usize = 0;
    while i < n
        invariant
            i <= n,
            n == low.len(),
            tail.len() == n,
            forall|j: int| 0 <= j < n ==> tail[j] == low[n - 1 - j],
            out@ == tail.subrange(0, i as int),
        decreases n - i,
    {
        out.push(low[n - 1 - i]);
        proof {
            assert(out@ =~= tail.subrange(0, i as int + 1));
        }
        i += 1;
    }
    proof {
        assert(tail.subrange(0, n as int) =~= tail);
    }
    out
}

/// Appends `count` zeros.
fn push_zeros(out: &mut Vec<u8>, count: usize)
    ensures
        final(out)@ == old(out)@ + zeros(count as nat),
{
    let mut i: usize = 0;
    proof {
        assert(out@ =~= old(out)@ + zeros(0));
    }
    while i < count
        invariant
            i <= count,
            out@ == old(out)@ + zeros(i as nat),
        decreases count - i,
    {
        out.push(48);
        proof {
            assert(out@ =~= old(out)@ + zeros((i + 1) as nat));
        }
        i += 1;
    }
}

/// Appends the bytes of `s` from `from` to `to`.
fn push_range(out: &mut Vec<u8>, s: &[u8], from: usize, to: usize)
    requires
        from <= to <= s.len(),
    ensures
        final(out)@ == old(out)@ + s@.subrange(from as int, to as int),
{
    let mut i: usize = from;
    proof {
        assert(out@ =~= old(out)@ + s@.subrange(from as int, from as int));
    }
    while i < to
        invariant
            from <= i <= to <= s.len(),
            out@ == old(out)@ + s@.subrange(from as int, i as int),
        decreases to - i,
    {
        out.push(s[i]);
        proof {
            assert(out@ =~= old(out)@ + s@.subrange(from as int, i as int + 1));
        }
        i += 1;
    }
}

/// The text of `c · 10^e`, from the digits of `c`.
fn lay_out(digits: &[u8], e: i128, Ghost(c): Ghost<nat>) -> (r: Vec<u8>)
    requires
        digits@ == decimal_digits(c),
        -0x1_0000_0000_0000_0000 <= e <= 0x1_0000_0000_0000_0000,
    ensures
        r@ == layout(c, e as int),
{
    proof {
        lemma_decimal_digits(c);
    }
    let k: i128 = digits.len() as i128;
    let leading: i128 = e + k - 1;
    let mut out: Vec<u8> = Vec::new();
    if e >= 0 && leading <= 20 {
        push_range(&mut out, digits, 0, digits.len());
        push_zeros(&mut out, e as usize);
        proof {
            assert(digits@.subrange(0, k as int) =~= digits@);
            assert(out@ =~= layout(c, e as int));
        }
    } else if e < 0 && leading >= 0 {
        let point: usize = (k + e) as usize;
        push_range(&mut out, digits, 0, point);
        out.push(46);
        push_range(&mut out, digits, point, digits.len());
        proof {
            assert(out@ =~= layout(c, e as int));
        }
    } else if e < 0 && leading >= -6 {
        out.push(48);
        out.push(46);
        push_zeros(&mut out, (-leading - 1) as usize);
        push_range(&mut out, digits, 0, digits.len());
        proof {
            assert(digits@.subrange(0, k as int) =~= digits@);
            assert(out@ =~= layout(c, e as int));
        }
    } else {
        push_range(&mut out, digits, 0, 1);
        if digits.len() > 1 {
            out.push(46);
            push_range(&mut out, digits, 1, digits.len());
        }
        out.push(101);
        let size: u128 = if leading < 0 {
            out.push(45);
            (-leading) as u128
        } else {
            out.push(43);
            leading as u128
        };
        let mut limbs = limbs_of((size % 0x1_0000_0000_0000_0000) as u64);
        if size >= 0x1_0000_0000_0000_0000 {
            // the size is 2^64 or a little more: put the top limb on
            let top: u32 = (size / 0x1_0000_0000_0000_0000) as u32;
            proof {
                crate::natural::lemma_value_push(limbs@, top);
                assert(power(base(), 2) == 0x1_0000_0000_0000_0000) by {
                    reveal_with_fuel(power, 3);
                }
                assert(limbs@.len() == 2);
            }
            limbs.push(top);
        }
        let written = to_decimal(limbs);
        push_range(&mut out, written.as_slice(), 0, written.len());
        proof {
            assert(written@.subrange(0, written.len() as int) =~= written@);
            assert(out@ =~= layout(c, e as int));
        }
    }
    out
}

/// Whether the text reads as the number with the bits `bits`, and all of
/// it.
fn reads_back(text: &Vec<u8>, bits: u64) -> (r: bool)
    ensures
        r == reads_as(text@, bits),
{
    match scan_number(text.as_slice(), 0) {
        Ok((read, end)) => read == bits && end == text.len(),
        Err(_) => false,
    }
}

/// The text of a double above 0, from its digits in full.
fn shortest(digits: &Vec<u8>, e: i32, bits: u64) -> (r: Vec<u8>)
    requires
        all_digits(digits@),
        exists|d: nat| digits@ == decimal_digits(d),
        -1074 <= e <= 0,
    ensures
        r@ == shortest_from(digits@, e as int, bits, 1),
{
    let n = digits.len();
    let mut p: usize = 1;
    while p < n
        invariant
            1 <= p,
            n == digits.len(),
            all_digits(digits@),
            -1074 <= e <= 0,
            shortest_from(digits@, e as int, bits, 1) == shortest_from(
                digits@,
                e as int,
                bits,
                p as int,
            ),
        decreases n - p,
    {
        let head = vstd::slice::slice_subrange(digits.as_slice(), 0, p);
        proof {
            assert forall|i: int| 0 <= i < head@.len() implies 48 <= #[trigger] head@[i] <= 57 by {
                assert(head@[i] == digits@[i]);
            }
        }
        let mut limbs = limbs_of_digits(head);
        if digits[p] >= 53 {
            mul_small(&mut limbs, 1, 1);
        }
        let ghost c = candidate(digits@, p as int);
        let rounded = to_decimal(limbs);
        proof {
            lemma_decimal_digits(c);
            if c >= 10 {
                assert(rounded@.drop_last() =~= decimal_digits(c / 10));
            }
        }
        let count = rounded.len();
        let text = if count > 1 && rounded[count - 1] == 48 {
            let kept = vstd::slice::slice_subrange(rounded.as_slice(), 0, count - 1);
            proof {
                assert(kept@ =~= rounded@.drop_last());
            }
            lay_out(kept, e as i128 + (n - p) as i128 + 1, Ghost(c / 10))
        } else {
            lay_out(rounded.as_slice(), e as i128 + (n - p) as i128, Ghost(c))
        };
        if reads_back(&text, bits) {
            return text;
        }
        p += 1;
    }
    let ghost d = choose|d: nat| digits@ == decimal_digits(d);
    proof {
        lemma_decimal_digits(d);
    }
    lay_out(digits.as_slice(), e as i128, Ghost(d))
}

/// The text of a number.
pub fn number_to_text(bits: u64) -> (r: Vec<u8>)
    ensures
        r@ == number_text(bits),
{
    let mag = magnitude_of(bits);
    if mag >= INFINITY_BITS || mag == 0 {
        let mut out: Vec<u8> = Vec::new();
        out.push(48);
        proof {
            assert(out@ =~= seq![48u8]);
        }
        return out;
    }
    let (limbs, e) = exact_limbs(bits);
    let ghost d = value(limbs@);
    let digits = to_decimal(limbs);
    proof {
        lemma_decimal_digits(d);
    }
    let text = shortest(&digits, e, mag);
    if bits >= crate::double::SIGN_BIT {
        let mut out: Vec<u8> = Vec::new();
        out.push(45);
        push_range(&mut out, text.as_slice(), 0, text.len());
        proof {
            assert(text@.subrange(0, text.len() as int) =~= text@);
            assert(out@ =~= seq![45u8] + text@);
        }
        out
    } else {
        text
    }
}

} // verus!
