//! A double written out in full reads back as itself: the proof that the
//! exact decimal expansion of a double rounds to the double.

use vstd::prelude::*;
use vstd::arithmetic::div_mod::lemma_fundamental_div_mod_converse;
use crate::decimal::{
    all_digits, bit_length, digits_value, lemma_bit_length_below, lemma_bit_length_bounds,
    lemma_bit_length_shift, rounded, scaled,
};
use crate::error::JsonError;
use crate::format::{decimal_digits, layout, lemma_decimal_digits, zeros};
use crate::lex::{
    digit_at, exponent_part, fraction_part, is_digit, number_shape, skip_digits, whole_part,
};
use crate::roundtrip::at;
use crate::double::{
    binary_exponent, int_twin, is_finite, is_zero, magnitude, mantissa,
    truncated, SIGN_BIT,
};
use crate::format::{decimal_of_binary, exact_decimal};
use crate::natural::{
    lemma_power_adds, lemma_power_increases, lemma_power_positive, lemma_powers_of_two, power,
};

verus! {

/// A power of a product is the product of the powers.
pub proof fn lemma_power_of_product(a: nat, b: nat, e: nat)
    ensures
        power(a * b, e) == power(a, e) * power(b, e),
    decreases e,
{
    if e == 0 {
        assert(power(a, 0) * power(b, 0) == 1) by (nonlinear_arith)
            requires
                power(a, 0) == 1,
                power(b, 0) == 1,
        ;
    } else {
        lemma_power_of_product(a, b, (e - 1) as nat);
        let pa = power(a, (e - 1) as nat);
        let pb = power(b, (e - 1) as nat);
        assert(power(a * b, e) == (a * b) * power(a * b, (e - 1) as nat));
        assert(power(a, e) == a * pa);
        assert(power(b, e) == b * pb);
        assert((a * b) * (pa * pb) == (a * pa) * (b * pb)) by (nonlinear_arith);
    }
}

/// The number `m · 2^e`, written as a whole number and a power of ten and
/// scaled by 2^1076, is `m · 2^(e + 1076)`, and nothing is cut off.
pub proof fn lemma_scaled_binary(m: nat, e: int)
    requires
        -1074 <= e,
    ensures
        scaled(decimal_of_binary(m, e).0, decimal_of_binary(m, e).1) == (
            m * power(2, (e + 1076) as nat),
            true,
        ),
{
    let scale = power(2, 1076);
    if e >= 0 {
        let pe = power(2, e as nat);
        lemma_power_adds(2, e as nat, 1076);
        assert(m * pe * power(10, 0) * scale == m * (pe * scale)) by (nonlinear_arith)
            requires
                power(10, 0) == 1,
        ;
    } else {
        let k = (-e) as nat;
        let five = power(5, k);
        let two = power(2, k);
        let rest = power(2, (1076 - k) as nat);
        let ten = power(10, k);
        lemma_power_of_product(2, 5, k);
        assert(2 * 5 == 10);
        assert(ten == two * five);
        lemma_power_adds(2, k, (1076 - k) as nat);
        assert(scale == two * rest);
        lemma_power_positive(10, k);
        let numerator = m * five * scale;
        let quotient = m * rest;
        assert(numerator == quotient * ten + 0) by (nonlinear_arith)
            requires
                numerator == m * five * scale,
                scale == two * rest,
                ten == two * five,
                quotient == m * rest,
        ;
        lemma_fundamental_div_mod_converse(numerator as int, ten as int, quotient as int, 0);
        assert((1076 - k) as nat == (e + 1076) as nat);
    }
}

/// A mantissa shifted up by at least two bits rounds to the double it came
/// from: what is dropped is all zero.
pub proof fn lemma_rounded_exact(bits: u64)
    requires
        is_finite(bits),
        !is_zero(bits),
        bits < SIGN_BIT,
    ensures
        rounded(mantissa(bits) * power(2, (binary_exponent(bits) + 1076) as nat), true) == bits,
{
    let m = mantissa(bits);
    let e = binary_exponent(bits);
    let j = (e + 1076) as nat;
    let n = m * power(2, j);
    let field = magnitude(bits) / 0x10_0000_0000_0000;
    let fraction = magnitude(bits) % 0x10_0000_0000_0000;
    assert(magnitude(bits) == bits);
    assert(bits == field * 0x10_0000_0000_0000 + fraction);
    lemma_powers_of_two();
    assert(m >= 1);
    // the length of the scaled number
    lemma_power_positive(2, j);
    lemma_bit_length_shift(m, j, 0);
    assert(n == m * power(2, j) + 0);
    let len = bit_length(n);
    assert(len == bit_length(m) + j);
    // the bits that are dropped: all but the last of the shift
    let p: nat = if len > 55 {
        (len - 53) as nat
    } else {
        2
    };
    if field == 0 {
        lemma_bit_length_below(m, 52);
        assert(j == 2);
        assert(p == 2);
    } else {
        lemma_bit_length_below(m, 53);
        lemma_bit_length_bounds(m);
        if bit_length(m) < 53 {
            lemma_power_increases(2, bit_length(m), 52);
        }
        assert(bit_length(m) == 53);
        assert(j == field + 1);
        assert(p == j);
    }
    assert(p == j);
    let low = power(2, (p - 1) as nat);
    lemma_power_positive(2, (p - 1) as nat);
    assert(power(2, j) == 2 * low);
    assert(n == (2 * m) * low + 0) by (nonlinear_arith)
        requires
            n == m * power(2, j),
            power(2, j) == 2 * low,
    ;
    lemma_fundamental_div_mod_converse(n as int, low as int, (2 * m) as int, 0);
    let guarded = n / low;
    assert(guarded == 2 * m);
    assert(n % low == 0);
    assert(guarded / 2 == m);
    assert(guarded % 2 == 0);
    if field == 0 {
        assert((p - 2) * 0x10_0000_0000_0000 == 0);
    } else {
        assert((p - 2) * 0x10_0000_0000_0000 + m == bits) by (nonlinear_arith)
            requires
                p - 2 == field - 1,
                m == 0x10_0000_0000_0000 + fraction,
                bits == field * 0x10_0000_0000_0000 + fraction,
        ;
    }
}

/// The number that digits put end to end stand for.
pub proof fn lemma_digits_value_concat(a: Seq<u8>, b: Seq<u8>)
    ensures
        digits_value(a + b) == digits_value(a) * power(10, b.len()) + digits_value(b),
    decreases b.len(),
{
    if b.len() == 0 {
        assert(a + b =~= a);
        assert(digits_value(a) * power(10, 0) == digits_value(a)) by (nonlinear_arith)
            requires
                power(10, 0) == 1,
        ;
    } else {
        let front = b.drop_last();
        lemma_digits_value_concat(a, front);
        assert((a + b).drop_last() =~= a + front);
        assert((a + b).last() == b.last());
        let p = power(10, front.len());
        assert(power(10, b.len()) == 10 * p);
        assert((digits_value(a) * p + digits_value(front)) * 10 == digits_value(a) * (10 * p)
            + digits_value(front) * 10) by (nonlinear_arith);
    }
}

/// Zeros stand for nothing.
pub proof fn lemma_zeros_value(count: nat)
    ensures
        digits_value(zeros(count)) == 0,
        all_digits(zeros(count)),
    decreases count,
{
    if count > 0 {
        lemma_zeros_value((count - 1) as nat);
        assert(zeros(count).drop_last() =~= zeros((count - 1) as nat));
    }
}

/// The first digit of a number above 0 is no zero.
pub proof fn lemma_leading_digit(c: nat)
    requires
        c >= 1,
    ensures
        decimal_digits(c)[0] != 48,
        is_digit(decimal_digits(c)[0]),
    decreases c,
{
    lemma_decimal_digits(c);
    if c >= 10 {
        lemma_leading_digit(c / 10);
        lemma_decimal_digits(c / 10);
        assert(decimal_digits(c)[0] == decimal_digits(c / 10)[0]);
    }
}

/// Digits that stand before what is no digit are stepped over.
pub proof fn lemma_skip_digit_run(s: Seq<u8>, pos: int, run: Seq<u8>)
    requires
        at(s, pos, run),
        all_digits(run),
        !digit_at(s, pos + run.len()),
    ensures
        skip_digits(s, pos) == pos + run.len(),
    decreases run.len(),
{
    if run.len() > 0 {
        assert(s[pos] == run[0]);
        let rest = run.drop_first();
        assert(at(s, pos + 1, rest)) by {
            assert forall|i: int| 0 <= i < rest.len() implies s[pos + 1 + i] == #[trigger] rest[i] by {
                assert(rest[i] == run[i + 1]);
            }
        }
        assert forall|i: int| 0 <= i < rest.len() implies 48 <= #[trigger] rest[i] <= 57 by {
            assert(rest[i] == run[i + 1]);
        }
        lemma_skip_digit_run(s, pos + 1, rest);
    }
}

/// What a text that is laid out reads as: a number without a sign, whose
/// digits stand for `c` and whose power of ten is `e`.
pub open spec fn shaped(t: Seq<u8>, c: nat, e: int) -> bool {
    &&& number_shape(t, 0) matches Ok((shape, end))
    &&& end == t.len()
    &&& !shape.negative
    &&& digits_value(shape.digits(t)) == c
    &&& shape.power_of_ten(t) == e
}

/// A whole number that is written out reads as itself.
proof fn lemma_whole_layout(c: nat)
    requires
        c >= 1,
    ensures
        shaped(decimal_digits(c), c, 0),
{
    let t = decimal_digits(c);
    let k = t.len() as int;
    lemma_decimal_digits(c);
    lemma_leading_digit(c);
    assert(at(t, 0, t));
    lemma_skip_digit_run(t, 0, t);
    assert(whole_part(t, 0) == Ok::<((bool, int), int), JsonError>(((false, 0), k)));
    assert(fraction_part(t, k) == Ok::<(int, int), JsonError>((k, k)));
    assert(exponent_part(t, k) == Ok::<((bool, bool, int), int), JsonError>(
        ((false, false, k), k),
    ));
    let shape = number_shape(t, 0)->Ok_0.0;
    assert(shape.digits(t) =~= t);
    assert(t.subrange(k, k) =~= Seq::<u8>::empty());
}

/// A number that is written with a point inside its digits reads as
/// itself.
proof fn lemma_point_layout(c: nat, e: int)
    requires
        c >= 1,
        e < 0,
        e + decimal_digits(c).len() - 1 >= 0,
    ensures
        shaped(layout(c, e), c, e),
{
    let ds = decimal_digits(c);
    let k = ds.len() as int;
    let w = k + e;
    let a = ds.subrange(0, w);
    let b = ds.subrange(w, k);
    let t = layout(c, e);
    lemma_decimal_digits(c);
    lemma_leading_digit(c);
    assert(t =~= a + seq![46u8] + b);
    assert(t.len() == k + 1);
    assert(t[w] == 46);
    assert(at(t, 0, a)) by {
        assert forall|i: int| 0 <= i < a.len() implies t[0 + i] == #[trigger] a[i] by {}
    }
    assert(all_digits(a)) by {
        assert forall|i: int| 0 <= i < a.len() implies 48 <= #[trigger] a[i] <= 57 by {
            assert(a[i] == ds[i]);
        }
    }
    assert(all_digits(b)) by {
        assert forall|i: int| 0 <= i < b.len() implies 48 <= #[trigger] b[i] <= 57 by {
            assert(b[i] == ds[w + i]);
        }
    }
    lemma_skip_digit_run(t, 0, a);
    assert(t[0] == a[0]);
    assert(a[0] == ds[0]);
    assert(whole_part(t, 0) == Ok::<((bool, int), int), JsonError>(((false, 0), w)));
    assert(at(t, w + 1, b)) by {
        assert forall|i: int| 0 <= i < b.len() implies t[w + 1 + i] == #[trigger] b[i] by {}
    }
    lemma_skip_digit_run(t, w + 1, b);
    assert(t[w + 1] == b[0]);
    assert(b[0] == ds[w]);
    assert(fraction_part(t, w) == Ok::<(int, int), JsonError>((w + 1, k + 1)));
    assert(exponent_part(t, k + 1) == Ok::<((bool, bool, int), int), JsonError>(
        ((false, false, k + 1), k + 1),
    ));
    let shape = number_shape(t, 0)->Ok_0.0;
    assert(shape.digits(t) =~= ds);
    assert(t.subrange(k + 1, k + 1) =~= Seq::<u8>::empty());
}

/// A number below 1 that is written behind `0.` and zeros reads as
/// itself.
proof fn lemma_small_layout(c: nat, e: int)
    requires
        c >= 1,
        e < 0,
        e + decimal_digits(c).len() - 1 < 0,
        e + decimal_digits(c).len() - 1 >= -6,
    ensures
        shaped(layout(c, e), c, e),
{
    let ds = decimal_digits(c);
    let k = ds.len() as int;
    let z = (-e - k) as nat;
    let fill = zeros(z);
    let t = layout(c, e);
    lemma_decimal_digits(c);
    lemma_leading_digit(c);
    lemma_zeros_value(z);
    assert(t =~= seq![48u8, 46u8] + fill + ds);
    let run = fill + ds;
    assert(t =~= seq![48u8, 46u8] + run);
    assert(t.len() == 2 + z + k);
    assert(t[0] == 48);
    assert(t[1] == 46);
    assert(at(t, 2, run)) by {
        assert forall|i: int| 0 <= i < run.len() implies t[2 + i] == #[trigger] run[i] by {}
    }
    assert(all_digits(run)) by {
        assert forall|i: int| 0 <= i < run.len() implies 48 <= #[trigger] run[i] <= 57 by {
            if i < z {
                assert(run[i] == fill[i]);
            } else {
                assert(run[i] == ds[i - z]);
            }
        }
    }
    lemma_skip_digit_run(t, 2, run);
    assert(t[2] == run[0]);
    assert(whole_part(t, 0) == Ok::<((bool, int), int), JsonError>(((false, 0), 1)));
    assert(fraction_part(t, 1) == Ok::<(int, int), JsonError>((2, t.len() as int)));
    assert(exponent_part(t, t.len() as int) == Ok::<((bool, bool, int), int), JsonError>(
        ((false, false, t.len() as int), t.len() as int),
    ));
    let shape = number_shape(t, 0)->Ok_0.0;
    let zero = seq![48u8];
    assert(shape.digits(t) =~= (zero + fill) + ds);
    assert(zero + fill =~= zeros(z + 1));
    lemma_zeros_value(z + 1);
    lemma_digits_value_concat(zero + fill, ds);
    assert(0 * power(10, ds.len()) == 0) by (nonlinear_arith);
    assert(t.subrange(t.len() as int, t.len() as int) =~= Seq::<u8>::empty());
}

/// The exponent as it is written behind a number: `e`, the sign, and the
/// digits.
pub open spec fn exponent_text(leading: int) -> Seq<u8> {
    seq![101u8] + (if leading < 0 {
        seq![45u8] + decimal_digits((-leading) as nat)
    } else {
        seq![43u8] + decimal_digits(leading as nat)
    })
}

/// The exponent as it is written is read in full, with its sign.
proof fn lemma_exponent_reads(t: Seq<u8>, pos: int, leading: int)
    requires
        at(t, pos, exponent_text(leading)),
        pos + exponent_text(leading).len() == t.len(),
    ensures
        exponent_part(t, pos) == Ok::<((bool, bool, int), int), JsonError>(
            ((true, leading < 0, pos + 2), t.len() as int),
        ),
        digits_value(t.subrange(pos + 2, t.len() as int)) == (if leading < 0 {
            -leading
        } else {
            leading
        }),
{
    let size = (if leading < 0 {
        -leading
    } else {
        leading
    }) as nat;
    let written = decimal_digits(size);
    let x = exponent_text(leading);
    lemma_decimal_digits(size);
    assert(x =~= seq![
        101u8,
        if leading < 0 {
            45u8
        } else {
            43u8
        },
    ] + written);
    assert(t[pos] == x[0]);
    assert(t[pos + 1] == x[1]);
    assert(at(t, pos + 2, written)) by {
        assert forall|i: int| 0 <= i < written.len() implies t[pos + 2 + i] == #[trigger] written[i] by {
            assert(t[pos + (2 + i)] == x[2 + i]);
        }
    }
    lemma_skip_digit_run(t, pos + 2, written);
    assert(t[pos + 2] == written[0]);
    assert(t.subrange(pos + 2, t.len() as int) =~= written);
}

/// A number that is written with one digit before the point and an
/// exponent reads as itself.
proof fn lemma_scientific_layout(c: nat, e: int)
    requires
        c >= 1,
        !(e >= 0 && e + decimal_digits(c).len() - 1 <= 20),
        !(e < 0 && e + decimal_digits(c).len() - 1 >= -6),
    ensures
        shaped(layout(c, e), c, e),
{
    let ds = decimal_digits(c);
    let k = ds.len() as int;
    let leading = e + k - 1;
    let t = layout(c, e);
    let x = exponent_text(leading);
    lemma_decimal_digits(c);
    lemma_leading_digit(c);
    let first = ds.subrange(0, 1);
    let more = ds.subrange(1, k);
    assert(all_digits(more)) by {
        assert forall|i: int| 0 <= i < more.len() implies 48 <= #[trigger] more[i] <= 57 by {
            assert(more[i] == ds[1 + i]);
        }
    }
    assert(x[0] == 101);
    if k > 1 {
        assert(t =~= first + seq![46u8] + more + x);
        assert(t[0] == first[0]);
        assert(first[0] == ds[0]);
        assert(t[1] == 46);
        assert(at(t, 0, first)) by {
            assert forall|i: int| 0 <= i < first.len() implies t[0 + i] == #[trigger] first[i] by {}
        }
        lemma_skip_digit_run(t, 0, first);
        assert(whole_part(t, 0) == Ok::<((bool, int), int), JsonError>(((false, 0), 1)));
        assert(at(t, 2, more)) by {
            assert forall|i: int| 0 <= i < more.len() implies t[2 + i] == #[trigger] more[i] by {}
        }
        assert(at(t, k + 1, x)) by {
            assert forall|i: int| 0 <= i < x.len() implies t[k + 1 + i] == #[trigger] x[i] by {}
        }
        assert(t[k + 1] == x[0]);
        lemma_skip_digit_run(t, 2, more);
        assert(t[2] == more[0]);
        assert(fraction_part(t, 1) == Ok::<(int, int), JsonError>((2, k + 1)));
        lemma_exponent_reads(t, k + 1, leading);
        let shape = number_shape(t, 0)->Ok_0.0;
        assert(shape.digits(t) =~= ds);
    } else {
        assert(more =~= Seq::<u8>::empty());
        assert(first =~= ds);
        assert(t =~= first + x);
        assert(t[0] == first[0]);
        assert(at(t, 0, first)) by {
            assert forall|i: int| 0 <= i < first.len() implies t[0 + i] == #[trigger] first[i] by {}
        }
        assert(at(t, 1, x)) by {
            assert forall|i: int| 0 <= i < x.len() implies t[1 + i] == #[trigger] x[i] by {}
        }
        assert(t[1] == x[0]);
        lemma_skip_digit_run(t, 0, first);
        assert(whole_part(t, 0) == Ok::<((bool, int), int), JsonError>(((false, 0), 1)));
        assert(fraction_part(t, 1) == Ok::<(int, int), JsonError>((1, 1)));
        lemma_exponent_reads(t, 1, leading);
        let shape = number_shape(t, 0)->Ok_0.0;
        assert(shape.digits(t) =~= ds);
    }
}

/// A number above 0 that is laid out reads as itself.
pub proof fn lemma_layout_reads(c: nat, e: int)
    requires
        c >= 1,
        e <= 0,
    ensures
        shaped(layout(c, e), c, e),
{
    let k = decimal_digits(c).len() as int;
    let leading = e + k - 1;
    if e >= 0 && leading <= 20 {
        lemma_whole_layout(c);
        assert(zeros(0) =~= Seq::<u8>::empty());
        assert(layout(c, e) =~= decimal_digits(c));
    } else if e < 0 && leading >= 0 {
        lemma_point_layout(c, e);
    } else if e < 0 && leading >= -6 {
        lemma_small_layout(c, e);
    } else {
        lemma_scientific_layout(c, e);
    }
}

/// A double that is a number other than zero, written out in full, reads
/// back as itself.
pub proof fn lemma_exact_reads(bits: u64)
    requires
        is_finite(bits),
        !is_zero(bits),
    ensures
        crate::roundtrip::exact_reads(bits),
{
    let mag = magnitude(bits);
    let (d, e) = exact_decimal(bits);
    let m = mantissa(bits);
    let e2 = binary_exponent(bits);
    lemma_powers_of_two();
    assert(m >= 1);
    assert(mantissa(mag) == m && binary_exponent(mag) == e2) by {
        assert(magnitude(mag) == mag);
    }
    assert(d >= 1) by {
        if e2 >= 0 {
            lemma_power_positive(2, e2 as nat);
            assert(m * power(2, e2 as nat) >= 1) by (nonlinear_arith)
                requires
                    m >= 1,
                    power(2, e2 as nat) >= 1,
            ;
        } else {
            lemma_power_positive(5, (-e2) as nat);
            assert(m * power(5, (-e2) as nat) >= 1) by (nonlinear_arith)
                requires
                    m >= 1,
                    power(5, (-e2) as nat) >= 1,
            ;
        }
    }
    lemma_layout_reads(d, e);
    lemma_scaled_binary(m, e2);
    lemma_rounded_exact(mag);
}

/// A whole number of at most 53 bits, shifted up so far that bits are
/// dropped, rounds to the double that holds it: its bits at the top of the
/// fraction, under the exponent that its length gives.
pub proof fn lemma_rounded_shifted(m: nat, j: nat)
    requires
        m >= 1,
        bit_length(m) <= 53,
        bit_length(m) + j > 55,
        bit_length(m) + j < 2100,
    ensures
        rounded(m * power(2, j), true) == (bit_length(m) + j - 55) * 0x10_0000_0000_0000 + m * power(
            2,
            (53 - bit_length(m)) as nat,
        ),
        0x10_0000_0000_0000 <= m * power(2, (53 - bit_length(m)) as nat) < 0x20_0000_0000_0000,
{
    let len = bit_length(m);
    let n = m * power(2, j);
    lemma_powers_of_two();
    lemma_power_positive(2, j);
    lemma_bit_length_shift(m, j, 0);
    assert(n == m * power(2, j) + 0);
    assert(bit_length(n) == len + j);
    let p = (len + j - 53) as nat;
    let up = (53 - len) as nat;
    let low = power(2, (p - 1) as nat);
    let lift = power(2, up);
    lemma_power_positive(2, (p - 1) as nat);
    lemma_power_positive(2, up);
    // 2^j = 2^(p-1) * 2 * 2^(53-len)
    lemma_power_adds(2, (p - 1) as nat, up + 1);
    assert(((p - 1) as nat) + (up + 1) == j);
    assert(power(2, up + 1) == 2 * lift);
    let kept = m * lift;
    assert(n == (2 * kept) * low + 0) by (nonlinear_arith)
        requires
            n == m * power(2, j),
            power(2, j) == low * power(2, up + 1),
            power(2, up + 1) == 2 * lift,
            kept == m * lift,
    ;
    lemma_fundamental_div_mod_converse(n as int, low as int, (2 * kept) as int, 0);
    assert(n / low == 2 * kept);
    assert(n % low == 0);
    // the kept bits fill the 53 places
    lemma_bit_length_shift(m, up, 0);
    assert(kept == m * lift + 0);
    assert(bit_length(kept) == 53);
    lemma_bit_length_bounds(kept);
    let field = (p - 2) * 0x10_0000_0000_0000;
    assert(field + kept < 0x7FF0_0000_0000_0000) by (nonlinear_arith)
        requires
            field == (p - 2) * 0x10_0000_0000_0000,
            p - 2 < 2045,
            kept < 0x20_0000_0000_0000,
    ;
    assert((2 * kept) / 2 == kept);
    assert((2 * kept) % 2 == 0);
}

/// The bits of a double above the fraction are its exponent field.
proof fn lemma_fields(field: nat, kept: nat)
    requires
        0x10_0000_0000_0000 <= kept < 0x20_0000_0000_0000,
        field < 2046,
    ensures
        (field * 0x10_0000_0000_0000 + kept) / 0x10_0000_0000_0000 == field + 1,
        (field * 0x10_0000_0000_0000 + kept) % 0x10_0000_0000_0000 == kept - 0x10_0000_0000_0000,
        field * 0x10_0000_0000_0000 + kept < 0x7FF0_0000_0000_0000,
{
    let whole = field * 0x10_0000_0000_0000 + kept;
    assert(whole == (field + 1) * 0x10_0000_0000_0000 + (kept - 0x10_0000_0000_0000))
        by (nonlinear_arith)
        requires
            whole == field * 0x10_0000_0000_0000 + kept,
    ;
    lemma_fundamental_div_mod_converse(
        whole as int,
        0x10_0000_0000_0000,
        (field + 1) as int,
        (kept - 0x10_0000_0000_0000) as int,
    );
    assert(whole < 0x7FF0_0000_0000_0000) by (nonlinear_arith)
        requires
            whole == field * 0x10_0000_0000_0000 + kept,
            field < 2046,
            kept < 0x20_0000_0000_0000,
    ;
}

/// The integer of a double that was made of an integer is that integer:
/// the whole part of the double follows what is written into it.
pub proof fn law_int_twin(v: i32)
    ensures
        int_twin(crate::create::double_of_int(v as int)) == v,
{
    let size = (if v < 0 {
        -(v as int)
    } else {
        v as int
    }) as nat;
    let bits = crate::create::double_of_int(v as int);
    let (d, e10) = decimal_of_binary(size, 0);
    lemma_powers_of_two();
    assert(d == size) by (nonlinear_arith)
        requires
            d == size * power(2, 0),
            power(2, 0) == 1,
    ;
    lemma_scaled_binary(size, 0);
    let n = size * power(2, 1076);
    if size == 0 {
        assert(n == 0) by (nonlinear_arith)
            requires
                n == size * power(2, 1076),
                size == 0,
        ;
        crate::decimal::lemma_rounded_zero(true);
        assert(bits == 0);
        assert(mantissa(bits) == 0);
        assert(mantissa(bits) / power(2, 1074) == 0) by {
            lemma_power_positive(2, 1074);
        }
    } else {
        lemma_bit_length_below(size, 32);
        lemma_bit_length_bounds(size);
        let len = bit_length(size);
        lemma_rounded_shifted(size, 1076);
        let up = (53 - len) as nat;
        let kept = size * power(2, up);
        let field = (len + 1021) as nat;
        lemma_fields(field, kept);
        let mag = (field * 0x10_0000_0000_0000 + kept) as u64;
        assert(bits == mag + if v < 0 {
            SIGN_BIT
        } else {
            0
        });
        assert(magnitude(bits) == mag);
        assert(mantissa(bits) == kept);
        assert(binary_exponent(bits) == len - 53);
        lemma_power_positive(2, up);
        assert(kept == size * power(2, up) + 0);
        lemma_fundamental_div_mod_converse(kept as int, power(2, up) as int, size as int, 0);
        assert(truncated(bits) == size);
    }
}

} // verus!
