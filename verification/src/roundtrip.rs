//! What is printed parses back: the proofs that lead from the text of a
//! tree to a tree that equals it.

use vstd::prelude::*;
use crate::decimal::{digits_value, rounded, scaled};
use crate::double::{double_eq, is_finite, is_negative, is_zero, magnitude, SIGN_BIT};
use crate::error::JsonError;
use crate::format::{
    decimal_digits, exact_decimal, layout, number_text, reads_as, shortest_from,
};
use crate::lex::{
    digit_at, exponent_part, fraction_part, is_digit, number_shape, read_number, skip_digits,
    whole_part, NumberShape,
};
use crate::lex::{
    byte_at, hex4, hex_value, is_blank, read_escape, read_string, skip_blanks, string_from,
    utf8_of,
};
use crate::print::{escape_of, escaped, hex_digit_of, quoted};
use crate::compare::{equal, has_partner, is_partner, lemma_equal_objects, paired};
use crate::natural::power;
use crate::node::{Node, Value};
use crate::parse::{array_of, object_of, placed, read_elements, read_members, read_value};
use crate::print::{
    closing_indent, line_end, member_lead, member_tail, printed, printed_upto, quoted_key,
};
use crate::text::nul_free;

verus! {

/// The bytes `p` stand in `s` from `pos` on.
pub open spec fn at(s: Seq<u8>, pos: int, p: Seq<u8>) -> bool {
    &&& 0 <= pos
    &&& pos + p.len() <= s.len()
    &&& forall|i: int| 0 <= i < p.len() ==> s[pos + i] == #[trigger] p[i]
}

/// Where two texts stand end to end, each stands in its place.
pub proof fn lemma_at_split(s: Seq<u8>, pos: int, a: Seq<u8>, b: Seq<u8>)
    requires
        at(s, pos, a + b),
    ensures
        at(s, pos, a),
        at(s, pos + a.len(), b),
{
    let ab = a + b;
    assert forall|i: int| 0 <= i < a.len() implies s[pos + i] == #[trigger] a[i] by {
        assert(ab[i] == a[i]);
    }
    assert forall|i: int| 0 <= i < b.len() implies s[pos + a.len() + i] == #[trigger] b[i] by {
        assert(ab[a.len() + i] == b[i]);
    }
}

/// A hexadecimal digit stands for the number it was made of.
proof fn lemma_hex_digit(x: u8)
    requires
        x < 16,
    ensures
        hex_value(hex_digit_of(x)) == Some(x as u32),
{
}

/// The escape of a byte reads as the byte: behind the bytes `acc`, a
/// string that goes on with the escape of `b` goes on, behind it, with
/// `b` read.
proof fn lemma_escape_reads(s: Seq<u8>, pos: int, b: u8, acc: Seq<u8>)
    requires
        at(s, pos, escape_of(b)),
        pos + escape_of(b).len() < s.len(),
        b != 0,
    ensures
        string_from(s, pos, acc) == string_from(s, pos + escape_of(b).len(), acc.push(b)),
{
    let e = escape_of(b);
    assert(s[pos] == e[0]);
    if b == 34 || b == 92 || b == 8 || b == 12 || b == 10 || b == 13 || b == 9 {
        assert(s[pos + 1] == e[1]);
        assert(read_escape(s, pos) == Ok::<(Seq<u8>, int), JsonError>((seq![b], pos + 2)));
        assert(acc + seq![b] =~= acc.push(b));
    } else if b < 32 {
        assert(s[pos + 1] == e[1]);
        assert(s[pos + 2] == e[2]);
        assert(s[pos + 3] == e[3]);
        assert(s[pos + 4] == e[4]);
        assert(s[pos + 5] == e[5]);
        lemma_hex_digit(b / 16);
        lemma_hex_digit(b % 16);
        assert(hex4(s, pos + 2) == Some(b as u32));
        assert(utf8_of(b as u32) =~= seq![b]);
        assert(read_escape(s, pos) == Ok::<(Seq<u8>, int), JsonError>((seq![b], pos + 6)));
        assert(acc + seq![b] =~= acc.push(b));
    } else {
    }
}

/// A text as it is written inside quotes reads as the text.
pub proof fn lemma_escaped_reads(s: Seq<u8>, pos: int, text: Seq<u8>, acc: Seq<u8>)
    requires
        at(s, pos, escaped(text) + seq![34u8]),
        nul_free(text),
    ensures
        string_from(s, pos, acc) == Ok::<(Seq<u8>, int), JsonError>(
            (acc + text, pos + escaped(text).len() + 1),
        ),
    decreases text.len(),
{
    if text.len() == 0 {
        assert(escaped(text) + seq![34u8] =~= seq![34u8]);
        assert(s[pos] == seq![34u8][0]);
        assert(acc + text =~= acc);
    } else {
        let b = text[0];
        let rest = text.drop_first();
        let whole = escaped(text) + seq![34u8];
        assert(whole =~= escape_of(b) + (escaped(rest) + seq![34u8]));
        lemma_at_split(s, pos, escape_of(b), escaped(rest) + seq![34u8]);
        lemma_escape_reads(s, pos, b, acc);
        assert(nul_free(rest)) by {
            assert forall|i: int| 0 <= i < rest.len() implies rest[i] != 0 by {
                assert(rest[i] == text[i + 1]);
            }
        }
        lemma_escaped_reads(s, pos + escape_of(b).len(), rest, acc.push(b));
        assert(acc.push(b) + rest =~= acc + text);
    }
}

/// A text as it is written reads as the text.
pub proof fn lemma_quoted_reads(s: Seq<u8>, pos: int, text: Seq<u8>)
    requires
        at(s, pos, quoted(text)),
        nul_free(text),
    ensures
        read_string(s, pos) == Ok::<(Seq<u8>, int), JsonError>((text, pos + quoted(text).len())),
{
    assert(quoted(text) =~= seq![34u8] + (escaped(text) + seq![34u8]));
    lemma_at_split(s, pos, seq![34u8], escaped(text) + seq![34u8]);
    assert(s[pos] == seq![34u8][0]);
    lemma_escaped_reads(s, pos + 1, text, Seq::empty());
    assert(Seq::<u8>::empty() + text =~= text);
}

/// A number that ends at `end` is not read on: the text ends there, or
/// what stands there is no digit, no point and no `e`.
pub open spec fn stops(s: Seq<u8>, end: int) -> bool {
    end == s.len() || (0 <= end < s.len() && !is_digit(s[end]) && s[end] != 46 && s[end] != 101
        && s[end] != 69)
}

/// Stepping over digits inside a text that stands in another is the same
/// in both, where no digit follows the text.
proof fn lemma_skip_digits_local(s: Seq<u8>, pos: int, t: Seq<u8>, i: int)
    requires
        at(s, pos, t),
        0 <= i <= t.len(),
        !digit_at(s, pos + t.len()),
    ensures
        skip_digits(s, pos + i) == pos + skip_digits(t, i),
        i <= skip_digits(t, i) <= t.len(),
    decreases t.len() - i,
{
    if i < t.len() {
        assert(s[pos + i] == t[i]);
        if is_digit(t[i]) {
            lemma_skip_digits_local(s, pos, t, i + 1);
        }
    }
}

/// The shape moved by `by` places.
pub open spec fn moved(shape: NumberShape, by: int) -> NumberShape {
    NumberShape {
        negative: shape.negative,
        whole: shape.whole + by,
        whole_end: shape.whole_end + by,
        fraction: shape.fraction + by,
        fraction_end: shape.fraction_end + by,
        has_exponent: shape.has_exponent,
        exponent_negative: shape.exponent_negative,
        exponent: shape.exponent + by,
        end: shape.end + by,
    }
}

/// The whole part of a number inside a text that stands in another is
/// the same in both.
proof fn lemma_whole_local(s: Seq<u8>, pos: int, t: Seq<u8>)
    requires
        at(s, pos, t),
        stops(s, pos + t.len()),
        whole_part(t, 0) is Ok,
        whole_part(t, 0)->Ok_0.1 <= t.len(),
    ensures
        whole_part(s, pos) == Ok::<((bool, int), int), JsonError>(
            (
                (whole_part(t, 0)->Ok_0.0.0, whole_part(t, 0)->Ok_0.0.1 + pos),
                whole_part(t, 0)->Ok_0.1 + pos,
            ),
        ),
{
    let n = t.len() as int;
    let negative = byte_at(t, 0, 45);
    let whole = if negative {
        1int
    } else {
        0int
    };
    assert(digit_at(t, whole));
    assert(s[pos] == t[0]);
    assert(s[pos + whole] == t[whole]);
    lemma_skip_digits_local(s, pos, t, whole);
    let whole_end = whole_part(t, 0)->Ok_0.1;
    if whole_end < n {
        assert(s[pos + whole_end] == t[whole_end]);
    }
}

/// The fraction of a number inside a text that stands in another is the
/// same in both.
proof fn lemma_fraction_local(s: Seq<u8>, pos: int, t: Seq<u8>, whole_end: int)
    requires
        at(s, pos, t),
        stops(s, pos + t.len()),
        0 <= whole_end <= t.len(),
        fraction_part(t, whole_end) is Ok,
    ensures
        fraction_part(s, pos + whole_end) == Ok::<(int, int), JsonError>(
            (
                fraction_part(t, whole_end)->Ok_0.0 + pos,
                fraction_part(t, whole_end)->Ok_0.1 + pos,
            ),
        ),
        fraction_part(t, whole_end)->Ok_0.0 <= fraction_part(t, whole_end)->Ok_0.1 <= t.len(),
        whole_end <= fraction_part(t, whole_end)->Ok_0.0,
{
    let n = t.len() as int;
    if whole_end < n {
        assert(s[pos + whole_end] == t[whole_end]);
    }
    if byte_at(t, whole_end, 46) {
        assert(s[pos + whole_end + 1] == t[whole_end + 1]);
        lemma_skip_digits_local(s, pos, t, whole_end + 1);
    } else {
        lemma_skip_digits_local(s, pos, t, whole_end);
    }
}

/// The exponent of a number inside a text that stands in another is the
/// same in both.
proof fn lemma_exponent_local(s: Seq<u8>, pos: int, t: Seq<u8>, fraction_end: int)
    requires
        at(s, pos, t),
        stops(s, pos + t.len()),
        0 <= fraction_end <= t.len(),
        exponent_part(t, fraction_end) is Ok,
    ensures
        exponent_part(s, pos + fraction_end) == Ok::<((bool, bool, int), int), JsonError>(
            (
                (
                    exponent_part(t, fraction_end)->Ok_0.0.0,
                    exponent_part(t, fraction_end)->Ok_0.0.1,
                    exponent_part(t, fraction_end)->Ok_0.0.2 + pos,
                ),
                exponent_part(t, fraction_end)->Ok_0.1 + pos,
            ),
        ),
        fraction_end <= exponent_part(t, fraction_end)->Ok_0.0.2 <= exponent_part(
            t,
            fraction_end,
        )->Ok_0.1 <= t.len(),
{
    let n = t.len() as int;
    if fraction_end < n {
        assert(s[pos + fraction_end] == t[fraction_end]);
    }
    if byte_at(t, fraction_end, 101) || byte_at(t, fraction_end, 69) {
        let exponent = exponent_part(t, fraction_end)->Ok_0.0.2;
        assert(digit_at(t, exponent));
        assert(s[pos + fraction_end + 1] == t[fraction_end + 1]);
        assert(s[pos + exponent] == t[exponent]);
        lemma_skip_digits_local(s, pos, t, exponent);
    }
}

/// A number that is all of a text has the same shape, moved, where the
/// text stands in another and the number is not read on.
proof fn lemma_shape_local(s: Seq<u8>, pos: int, t: Seq<u8>)
    requires
        at(s, pos, t),
        stops(s, pos + t.len()),
        number_shape(t, 0) is Ok,
        number_shape(t, 0)->Ok_0.1 == t.len(),
    ensures
        number_shape(s, pos) == Ok::<(NumberShape, int), JsonError>(
            (moved(number_shape(t, 0)->Ok_0.0, pos), pos + t.len()),
        ),
        0 <= number_shape(t, 0)->Ok_0.0.whole <= number_shape(t, 0)->Ok_0.0.whole_end
            <= number_shape(t, 0)->Ok_0.0.fraction <= number_shape(t, 0)->Ok_0.0.fraction_end
            <= number_shape(t, 0)->Ok_0.0.exponent <= number_shape(t, 0)->Ok_0.0.end == t.len(),
{
    crate::lex::lemma_number_shape(t, 0);
    let shape = number_shape(t, 0)->Ok_0.0;
    crate::lex::lemma_skip_digits(t, shape.whole);
    lemma_whole_local(s, pos, t);
    lemma_fraction_local(s, pos, t, shape.whole_end);
    lemma_exponent_local(s, pos, t, shape.fraction_end);
}

/// A number that is all of a text reads the same where the text stands in
/// another and the number is not read on.
pub proof fn lemma_number_local(s: Seq<u8>, pos: int, t: Seq<u8>, bits: u64)
    requires
        at(s, pos, t),
        stops(s, pos + t.len()),
        reads_as(t, bits),
    ensures
        read_number(s, pos) == Ok::<(u64, int), JsonError>((bits, pos + t.len())),
{
    lemma_shape_local(s, pos, t);
    let shape = number_shape(t, 0)->Ok_0.0;
    let there = moved(shape, pos);
    assert(s.subrange(there.whole, there.whole_end) =~= t.subrange(shape.whole, shape.whole_end));
    assert(s.subrange(there.fraction, there.fraction_end) =~= t.subrange(
        shape.fraction,
        shape.fraction_end,
    ));
    assert(s.subrange(there.exponent, there.end) =~= t.subrange(shape.exponent, shape.end));
    assert(there.digits(s) == shape.digits(t));
    assert(there.power_of_ten(s) == shape.power_of_ten(t));
}

/// The bits of a rounded number are at most those of infinity.
pub proof fn lemma_rounded_bound(n: nat, exact: bool)
    ensures
        rounded(n, exact) <= crate::double::INFINITY_BITS,
{
    let len = crate::decimal::bit_length(n);
    let p: nat = if len > 55 {
        (len - 53) as nat
    } else {
        2
    };
    crate::natural::lemma_power_positive(2, (p - 1) as nat);
    let guarded = n / power(2, (p - 1) as nat);
    assert(guarded >= 0);
    assert(guarded / 2 >= 0);
    assert((p - 2) * 0x10_0000_0000_0000 >= 0) by (nonlinear_arith)
        requires
            p >= 2,
    ;
}

/// The text `0` reads as zero.
pub proof fn lemma_zero_reads()
    ensures
        reads_as(seq![48u8], 0),
{
    let t = seq![48u8];
    assert(t[0] == 48);
    assert(whole_part(t, 0) == Ok::<((bool, int), int), JsonError>(((false, 0), 1)));
    assert(fraction_part(t, 1) == Ok::<(int, int), JsonError>((1, 1)));
    assert(exponent_part(t, 1) == Ok::<((bool, bool, int), int), JsonError>(
        ((false, false, 1), 1),
    ));
    let shape = number_shape(t, 0)->Ok_0.0;
    assert(shape.digits(t) =~= t);
    assert(t.drop_last() =~= Seq::<u8>::empty());
    assert(digits_value(t) == digits_value(t.drop_last()) * 10 + (t.last() - 48) as nat);
    assert(digits_value(t) == 0);
    assert(t.subrange(1, 1) =~= Seq::<u8>::empty());
    assert(shape.power_of_ten(t) == 0);
    let (n, exact) = scaled(0, 0);
    assert(n == 0) by (nonlinear_arith)
        requires
            n == 0 * power(10, 0) * power(2, 1076),
    ;
    crate::decimal::lemma_rounded_zero(exact);
}

/// A text that reads as a number without a sign reads, behind a minus, as
/// the number with the sign.
pub proof fn lemma_minus_reads(t: Seq<u8>, bits: u64)
    requires
        reads_as(t, bits),
        bits < SIGN_BIT,
    ensures
        reads_as(seq![45u8] + t, (bits + SIGN_BIT) as u64),
{
    let m = seq![45u8] + t;
    let shape = number_shape(t, 0)->Ok_0.0;
    assert(at(m, 1, t)) by {
        assert forall|i: int| 0 <= i < t.len() implies m[1 + i] == #[trigger] t[i] by {}
    }
    lemma_shape_local(m, 1, t);
    let there = moved(shape, 1);
    let (n, exact) = scaled(
        digits_value(shape.digits(t)),
        crate::decimal::clamped(shape.power_of_ten(t), shape.digits(t).len()),
    );
    lemma_rounded_bound(n, exact);
    assert(!shape.negative);
    assert(m[0] == 45);
    assert(t[0] != 45);
    assert(m[1] == t[0]);
    assert(whole_part(m, 0) == Ok::<((bool, int), int), JsonError>(
        ((true, there.whole), there.whole_end),
    ));
    let minus = NumberShape { negative: true, ..there };
    assert(number_shape(m, 0) == Ok::<(NumberShape, int), JsonError>((minus, m.len() as int)));
    assert(m.subrange(there.whole, there.whole_end) =~= t.subrange(shape.whole, shape.whole_end));
    assert(m.subrange(there.fraction, there.fraction_end) =~= t.subrange(
        shape.fraction,
        shape.fraction_end,
    ));
    assert(m.subrange(there.exponent, there.end) =~= t.subrange(shape.exponent, shape.end));
    assert(minus.digits(m) == shape.digits(t));
    assert(minus.power_of_ten(m) == shape.power_of_ten(t));
}

/// Where the digits in full read back as the double, so does the text
/// with the fewest digits.
pub proof fn lemma_shortest_reads(digits: Seq<u8>, e: int, bits: u64, p: int)
    requires
        reads_as(layout(digits_value(digits), e), bits),
    ensures
        reads_as(shortest_from(digits, e, bits, p), bits),
    decreases digits.len() - p,
{
    if p >= digits.len() || p < 1 {
    } else {
        let text = crate::format::candidate_text(digits, e, p);
        if !reads_as(text, bits) {
            lemma_shortest_reads(digits, e, bits, p + 1);
        }
    }
}

/// The double written out in full reads back as the double.
pub open spec fn exact_reads(bits: u64) -> bool {
    reads_as(layout(exact_decimal(bits).0, exact_decimal(bits).1), magnitude(bits))
}

/// The text of a number reads back as the number, where the number
/// written out in full does; the two zeros read back as the zero without
/// a sign.
pub proof fn lemma_number_text_reads(bits: u64)
    requires
        is_finite(bits),
        is_zero(bits) || exact_reads(bits),
    ensures
        is_zero(bits) ==> reads_as(number_text(bits), 0),
        !is_zero(bits) ==> reads_as(number_text(bits), bits),
{
    if is_zero(bits) {
        lemma_zero_reads();
    } else {
        let (d, e) = exact_decimal(bits);
        crate::format::lemma_decimal_digits(d);
        lemma_shortest_reads(decimal_digits(d), e, magnitude(bits), 1);
        if is_negative(bits) {
            lemma_minus_reads(shortest_from(decimal_digits(d), e, magnitude(bits), 1), magnitude(bits));
        }
    }
}

/// Two trees are alike: they hold the same, number for number as doubles
/// and text for text, member for member in the same order and, in
/// objects, under the same keys.
pub open spec fn alike(a: Node, b: Node) -> bool
    decreases a,
{
    match (a.value, b.value) {
        (Value::Null, Value::Null) => true,
        (Value::Bool(x), Value::Bool(y)) => x == y,
        (Value::Number(x), Value::Number(y)) => double_eq(x, y),
        (Value::String(x), Value::String(y)) => x == y,
        (Value::Array(x), Value::Array(y)) => {
            &&& x.len() == y.len()
            &&& forall|i: int| 0 <= i < x.len() ==> alike(#[trigger] x[i], y[i])
        },
        (Value::Object(x), Value::Object(y)) => {
            &&& x.len() == y.len()
            &&& forall|i: int|
                0 <= i < x.len() ==> (#[trigger] x[i]).key is Some && x[i].key == y[i].key && alike(
                    x[i],
                    y[i],
                )
        },
        _ => false,
    }
}

/// Trees that are alike are equal.
pub proof fn lemma_alike_equal(a: Node, b: Node)
    requires
        alike(a, b),
    ensures
        equal(a, b, true),
    decreases a,
{
    match (a.value, b.value) {
        (Value::Array(x), Value::Array(y)) => {
            assert forall|i: int| 0 <= i < x.len() implies equal(#[trigger] x[i], y[i], true) by {
                lemma_alike_equal(x[i], y[i]);
            }
        },
        (Value::Object(x), Value::Object(y)) => {
            assert forall|i: int| 0 <= i < x.len() implies #[trigger] paired(x, i, y, i, true) by {
                lemma_alike_equal(x[i], y[i]);
            }
            assert forall|i: int| 0 <= i < x.len() implies #[trigger] has_partner(
                a.members(),
                i,
                b.members(),
                true,
            ) by {
                assert(paired(x, i, y, i, true));
            }
            assert forall|j: int| 0 <= j < y.len() implies #[trigger] is_partner(
                a.members(),
                b.members(),
                j,
                true,
            ) by {
                assert(paired(x, j, y, j, true));
            }
            lemma_equal_objects(a, b, true);
        },
        _ => {},
    }
}

/// A tree that the printer writes so that the parser reads it back: it
/// holds no raw text, no text or key with a zero byte, a key on every
/// member of an object, and no number but such as read back from their
/// digits in full.
pub open spec fn printable(t: Node) -> bool
    decreases t,
{
    match t.value {
        Value::String(text) => nul_free(text),
        Value::Number(bits) => is_finite(bits) && (is_zero(bits) || exact_reads(bits)),
        Value::Raw(_) => false,
        Value::Array(items) => forall|i: int| 0 <= i < items.len() ==> printable(#[trigger] items[i]),
        Value::Object(items) => forall|i: int|
            0 <= i < items.len() ==> ((#[trigger] items[i]).key matches Some(k) && nul_free(k))
                && printable(items[i]),
        _ => true,
    }
}

/// What stands in the text behind the member at `k` of a container whose
/// members are `depth + 1` containers deep: the tail of the member, then
/// the lead and the text of each member that follows and its tail, and
/// the closing bracket on its line.
pub open spec fn after_member(
    items: Seq<Node>,
    k: int,
    keyed: bool,
    formatted: bool,
    depth: nat,
) -> Seq<u8>
    decreases items.len() - k,
{
    if k < 0 || k >= items.len() {
        Seq::empty()
    } else if k + 1 == items.len() {
        member_tail(true, formatted) + closing_indent(formatted, depth) + seq![
            if keyed {
                125u8
            } else {
                93u8
            },
        ]
    } else {
        member_tail(false, formatted) + member_lead(items[k + 1], keyed, formatted, depth + 1)
            + printed(items[k + 1], formatted, depth + 1) + after_member(
            items,
            k + 1,
            keyed,
            formatted,
            depth,
        )
    }
}

/// The text of the members and the closing bracket, seen from the member
/// at `k`: what is before it, its lead, its text, and what is behind it.
#[verifier::rlimit(50)]
pub proof fn lemma_members_from(items: Seq<Node>, k: int, keyed: bool, formatted: bool, depth: nat)
    requires
        0 <= k < items.len(),
    ensures
        printed_upto(items, items.len(), keyed, formatted, depth + 1) + closing_indent(
            formatted,
            depth,
        ) + seq![
            if keyed {
                125u8
            } else {
                93u8
            },
        ] == printed_upto(items, k as nat, keyed, formatted, depth + 1) + member_lead(
            items[k],
            keyed,
            formatted,
            depth + 1,
        ) + printed(items[k], formatted, depth + 1) + after_member(
            items,
            k,
            keyed,
            formatted,
            depth,
        ),
    decreases items.len() - k,
{
    let close = seq![
        if keyed {
            125u8
        } else {
            93u8
        },
    ];
    let whole = printed_upto(items, items.len(), keyed, formatted, depth + 1) + closing_indent(
        formatted,
        depth,
    ) + close;
    let before = printed_upto(items, k as nat, keyed, formatted, depth + 1);
    let lead = member_lead(items[k], keyed, formatted, depth + 1);
    let body = printed(items[k], formatted, depth + 1);
    if k + 1 == items.len() {
        assert(printed_upto(items, items.len(), keyed, formatted, depth + 1) == before + lead + body
            + member_tail(true, formatted));
        assert(whole =~= before + lead + body + after_member(items, k, keyed, formatted, depth));
    } else {
        lemma_members_from(items, k + 1, keyed, formatted, depth);
        let next = printed_upto(items, (k + 1) as nat, keyed, formatted, depth + 1);
        assert(next == before + lead + body + member_tail(false, formatted));
        assert(whole =~= before + lead + body + after_member(items, k, keyed, formatted, depth));
    }
}

/// Blanks that stand before a byte that is no blank are stepped over.
pub proof fn lemma_skip_run(s: Seq<u8>, pos: int, run: Seq<u8>)
    requires
        at(s, pos, run),
        forall|i: int| 0 <= i < run.len() ==> is_blank(#[trigger] run[i]),
        pos + run.len() < s.len(),
        !is_blank(s[pos + run.len()]),
    ensures
        skip_blanks(s, pos) == pos + run.len(),
    decreases run.len(),
{
    if run.len() > 0 {
        assert(s[pos] == run[0]);
        let rest = run.drop_first();
        assert(at(s, pos + 1, rest)) by {
            assert forall|i: int| 0 <= i < rest.len() implies s[pos + 1 + i] == #[trigger] rest[i] by {
                assert(rest[i] == run[i + 1]);
            }
        }
        assert forall|i: int| 0 <= i < rest.len() implies is_blank(#[trigger] rest[i]) by {
            assert(rest[i] == run[i + 1]);
        }
        lemma_skip_run(s, pos + 1, rest);
    }
}

/// The text of a printable tree begins with a byte that is no blank, and
/// that is no closing bracket and no comma.
pub proof fn lemma_printed_begins(t: Node, formatted: bool, depth: nat)
    requires
        printable(t),
    ensures
        printed(t, formatted, depth).len() >= 1,
        begins_value(printed(t, formatted, depth)[0]),
{
    match t.value {
        Value::Number(bits) => {
            lemma_number_text_reads(bits);
            let text = number_text(bits);
            crate::lex::lemma_number_shape(text, 0);
        },
        Value::String(text) => {
            assert(quoted(text)[0] == 34);
        },
        Value::Array(items) => {
            if items.len() > 0 {
                let p = printed(t, formatted, depth);
                assert(p[0] == 91);
            }
        },
        Value::Object(items) => {
            let p = printed(t, formatted, depth);
            assert(p[0] == 123);
        },
        _ => {},
    }
}

/// A byte with which a value begins: a quote, a minus, a digit, an
/// opening bracket, or the first letter of a literal.
pub open spec fn begins_value(b: u8) -> bool {
    b == 34 || b == 45 || is_digit(b) || b == 91 || b == 123 || b == 110 || b == 116 || b == 102
}

/// The key of a member as it stands before its value: in quotes, a colon,
/// and a blank in formatted text.
pub open spec fn key_text(member: Node, formatted: bool) -> Seq<u8> {
    quoted_key(member.key) + seq![58u8] + if formatted {
        seq![32u8]
    } else {
        Seq::empty()
    }
}

/// The lead of a member of an object is its indentation and its key.
proof fn lemma_lead_keyed(member: Node, formatted: bool, depth: nat)
    ensures
        member_lead(member, true, formatted, depth) == closing_indent(formatted, depth) + key_text(
            member,
            formatted,
        ),
        member_lead(member, false, formatted, depth) == closing_indent(formatted, depth),
{
    assert(member_lead(member, false, formatted, depth) =~= closing_indent(formatted, depth));
}

/// The indentation and the end of a line are blanks.
proof fn lemma_blank_run(formatted: bool, depth: nat)
    ensures
        forall|i: int|
            0 <= i < (line_end(formatted) + closing_indent(formatted, depth)).len() ==> is_blank(
                #[trigger] (line_end(formatted) + closing_indent(formatted, depth))[i],
            ),
        forall|i: int|
            0 <= i < closing_indent(formatted, depth).len() ==> is_blank(
                #[trigger] closing_indent(formatted, depth)[i],
            ),
{
}

/// Reading a key as it stands before its value: the key is read, the
/// colon follows at once, and the value begins behind the key text.
proof fn lemma_key_reads(s: Seq<u8>, pos: int, member: Node, formatted: bool)
    requires
        member.key matches Some(k) && nul_free(k),
        at(s, pos, key_text(member, formatted)),
        pos + key_text(member, formatted).len() < s.len(),
        !is_blank(s[pos + key_text(member, formatted).len()]),
    ensures
        read_string(s, pos) == Ok::<(Seq<u8>, int), JsonError>(
            (member.key->Some_0, pos + quoted_key(member.key).len()),
        ),
        skip_blanks(s, pos + quoted_key(member.key).len()) == pos + quoted_key(member.key).len(),
        byte_at(s, pos + quoted_key(member.key).len(), 58),
        skip_blanks(s, pos + quoted_key(member.key).len() + 1) == pos + key_text(
            member,
            formatted,
        ).len(),
{
    let key = member.key->Some_0;
    let q = quoted(key);
    let blank = if formatted {
        seq![32u8]
    } else {
        Seq::<u8>::empty()
    };
    assert(key_text(member, formatted) =~= q + (seq![58u8] + blank));
    lemma_at_split(s, pos, q, seq![58u8] + blank);
    lemma_quoted_reads(s, pos, key);
    lemma_at_split(s, pos + q.len(), seq![58u8], blank);
    assert(s[pos + q.len()] == seq![58u8][0]);
    lemma_skip_run(s, pos + q.len(), Seq::empty());
    lemma_skip_run(s, pos + q.len() + 1, blank);
}

/// Behind the last member: the blanks up to the closing bracket are
/// stepped over.
proof fn lemma_tail_last(s: Seq<u8>, end: int, formatted: bool, depth: nat, close: u8)
    requires
        at(s, end, member_tail(true, formatted) + closing_indent(formatted, depth) + seq![close]),
        !is_blank(close),
    ensures
        skip_blanks(s, end) == end + (member_tail(true, formatted) + closing_indent(
            formatted,
            depth,
        )).len(),
        byte_at(s, skip_blanks(s, end), close),
        skip_blanks(s, end) + 1 == end + (member_tail(true, formatted) + closing_indent(
            formatted,
            depth,
        ) + seq![close]).len(),
        stops(s, end) || s[end] == close,
        end < s.len(),
{
    let run = member_tail(true, formatted) + closing_indent(formatted, depth);
    assert(member_tail(true, formatted) =~= line_end(formatted));
    lemma_blank_run(formatted, depth);
    lemma_at_split(s, end, run, seq![close]);
    assert(s[end + run.len()] == seq![close][0]);
    lemma_skip_run(s, end, run);
    if run.len() > 0 {
        assert(s[end] == run[0]);
    }
}

/// Behind a member that is not the last: the comma follows at once, and
/// the blanks up to the next member are stepped over.
proof fn lemma_tail_more(s: Seq<u8>, end: int, formatted: bool, depth: nat, rest: Seq<u8>)
    requires
        at(s, end, member_tail(false, formatted) + closing_indent(formatted, depth) + rest),
        rest.len() >= 1,
        !is_blank(rest[0]),
    ensures
        skip_blanks(s, end) == end,
        byte_at(s, end, 44),
        skip_blanks(s, end + 1) == end + (member_tail(false, formatted) + closing_indent(
            formatted,
            depth,
        )).len(),
        at(
            s,
            end + (member_tail(false, formatted) + closing_indent(formatted, depth)).len(),
            rest,
        ),
{
    let run = line_end(formatted) + closing_indent(formatted, depth);
    let whole = member_tail(false, formatted) + closing_indent(formatted, depth) + rest;
    assert(whole =~= seq![44u8] + (run + rest));
    lemma_at_split(s, end, seq![44u8], run + rest);
    assert(s[end] == seq![44u8][0]);
    lemma_skip_run(s, end, Seq::empty());
    lemma_at_split(s, end + 1, run, rest);
    assert(s[end + 1 + run.len()] == rest[0]);
    lemma_blank_run(formatted, depth);
    lemma_skip_run(s, end + 1, run);
    assert((member_tail(false, formatted) + closing_indent(formatted, depth)).len() == 1 + run.len());
}

/// What was read of the members before the one at `k` is alike to them.
pub open spec fn read_alike(acc: Seq<Node>, items: Seq<Node>, k: int, keyed: bool) -> bool {
    &&& acc.len() == k
    &&& k <= items.len()
    &&& forall|i: int|
        0 <= i < k ==> alike(#[trigger] acc[i], items[i]) && (keyed ==> acc[i].key is Some
            && acc[i].key == items[i].key)
}

/// One more member was read.
proof fn lemma_read_one_more(
    acc: Seq<Node>,
    items: Seq<Node>,
    k: int,
    keyed: bool,
    item: Node,
    key: Option<Seq<u8>>,
)
    requires
        read_alike(acc, items, k, keyed),
        k < items.len(),
        alike(item, items[k]),
        keyed ==> key is Some && key == items[k].key,
    ensures
        read_alike(acc.push(placed(item, key, acc.len())), items, k + 1, keyed),
{
    let more = acc.push(placed(item, key, acc.len()));
    assert forall|i: int| 0 <= i < k + 1 implies alike(#[trigger] more[i], items[i]) && (keyed
        ==> more[i].key is Some && more[i].key == items[i].key) by {
        if i < k {
            assert(more[i] == acc[i]);
        } else {
            assert(more[i].value == item.value);
        }
    }
}

/// A word that stands in the text is held by it.
proof fn lemma_holds(s: Seq<u8>, pos: int, word: Seq<u8>)
    requires
        at(s, pos, word),
    ensures
        crate::lex::holds(s, pos, word),
{
    assert(s.subrange(pos, pos + word.len()) =~= word);
}

/// A word whose first byte does not stand in the text is not held by it.
proof fn lemma_holds_not(s: Seq<u8>, pos: int, word: Seq<u8>)
    requires
        0 <= pos < s.len(),
        word.len() >= 1,
        s[pos] != word[0],
    ensures
        !crate::lex::holds(s, pos, word),
{
    if crate::lex::holds(s, pos, word) {
        assert(s.subrange(pos, pos + word.len())[0] == word[0]);
    }
}

/// The text of a literal reads back.
proof fn lemma_literal_reads(
    t: Node,
    formatted: bool,
    d: nat,
    s: Seq<u8>,
    pos: int,
    depth: nat,
    limit: nat,
)
    requires
        t.value is Null || t.value is Bool,
        at(s, pos, printed(t, formatted, d)),
    ensures
        read_value(s, pos, depth, limit) matches Ok((again, end)) && end == pos + printed(
            t,
            formatted,
            d,
        ).len() && alike(again, t),
{
    let p = printed(t, formatted, d);
    assert(s[pos] == p[0]);
    let null = crate::lex::word_null();
    let yes = crate::lex::word_true();
    let no = crate::lex::word_false();
    assert(null[0] == 110 && yes[0] == 116 && no[0] == 102);
    match t.value {
        Value::Null => {
            assert(p == null);
            lemma_holds(s, pos, null);
        },
        Value::Bool(b) => {
            if b {
                assert(p == yes);
                lemma_holds(s, pos, yes);
                lemma_holds_not(s, pos, null);
            } else {
                assert(p == no);
                lemma_holds(s, pos, no);
                lemma_holds_not(s, pos, null);
                lemma_holds_not(s, pos, yes);
            }
        },
        _ => {},
    }
}

/// The text of a number reads back.
proof fn lemma_number_reads(
    t: Node,
    formatted: bool,
    d: nat,
    s: Seq<u8>,
    pos: int,
    depth: nat,
    limit: nat,
)
    requires
        t.value is Number,
        printable(t),
        at(s, pos, printed(t, formatted, d)),
        stops(s, pos + printed(t, formatted, d).len()),
    ensures
        read_value(s, pos, depth, limit) matches Ok((again, end)) && end == pos + printed(
            t,
            formatted,
            d,
        ).len() && alike(again, t),
{
    let bits = t.value->Number_0;
    let p = printed(t, formatted, d);
    lemma_printed_begins(t, formatted, d);
    assert(s[pos] == p[0]);
    lemma_number_text_reads(bits);
    crate::lex::lemma_number_shape(p, 0);
    assert(p[0] == 45 || is_digit(p[0]));
    if is_zero(bits) {
        lemma_number_local(s, pos, p, 0);
    } else {
        lemma_number_local(s, pos, p, bits);
    }
}

/// The text of a string reads back.
proof fn lemma_string_reads(
    t: Node,
    formatted: bool,
    d: nat,
    s: Seq<u8>,
    pos: int,
    depth: nat,
    limit: nat,
)
    requires
        t.value is String,
        printable(t),
        at(s, pos, printed(t, formatted, d)),
    ensures
        read_value(s, pos, depth, limit) matches Ok((again, end)) && end == pos + printed(
            t,
            formatted,
            d,
        ).len() && alike(again, t),
{
    let text = t.value->String_0;
    let p = printed(t, formatted, d);
    assert(p[0] == 34);
    assert(s[pos] == p[0]);
    lemma_quoted_reads(s, pos, text);
}

/// The text of a printable tree reads back as a tree that is alike to it,
/// wherever the text stands, where nothing that could go on a number
/// follows it and the limit leaves room for the depth of the tree.
pub proof fn lemma_printed_reads(
    t: Node,
    formatted: bool,
    d: nat,
    s: Seq<u8>,
    pos: int,
    depth: nat,
    limit: nat,
)
    requires
        printable(t),
        t.depth() + depth <= limit,
        at(s, pos, printed(t, formatted, d)),
        stops(s, pos + printed(t, formatted, d).len()),
    ensures
        read_value(s, pos, depth, limit) matches Ok((again, end)) && end == pos + printed(
            t,
            formatted,
            d,
        ).len() && alike(again, t),
    decreases t, 1nat,
{
    match t.value {
        Value::Null => {
            lemma_literal_reads(t, formatted, d, s, pos, depth, limit);
        },
        Value::Bool(b) => {
            lemma_literal_reads(t, formatted, d, s, pos, depth, limit);
        },
        Value::Number(bits) => {
            lemma_number_reads(t, formatted, d, s, pos, depth, limit);
        },
        Value::String(text) => {
            lemma_string_reads(t, formatted, d, s, pos, depth, limit);
        },
        Value::Raw(_) => {},
        Value::Array(items) => {
            lemma_array_reads(t, formatted, d, s, pos, depth, limit);
        },
        Value::Object(items) => {
            lemma_object_reads(t, formatted, d, s, pos, depth, limit);
        },
    }
}

/// The text of a container with members, taken apart: the opening
/// bracket, the blanks up to the first member, the key text of the first
/// member in an object, its text, and what is behind it.
proof fn lemma_container_text(t: Node, formatted: bool, d: nat)
    requires
        t.value.is_container(),
        t.members().len() > 0,
    ensures
        t.value is Array ==> printed(t, formatted, d) == seq![91u8] + ((line_end(formatted)
            + closing_indent(formatted, d + 1)) + (printed(t.members()[0], formatted, d + 1)
            + after_member(t.members(), 0, false, formatted, d))),
        t.value is Object ==> printed(t, formatted, d) == seq![123u8] + ((line_end(formatted)
            + closing_indent(formatted, d + 1)) + (key_text(t.members()[0], formatted) + printed(
            t.members()[0],
            formatted,
            d + 1,
        ) + after_member(t.members(), 0, true, formatted, d))),
{
    let items = t.members();
    let keyed = t.value is Object;
    let p = printed(t, formatted, d);
    let all = printed_upto(items, items.len(), keyed, formatted, d + 1);
    let close = seq![
        if keyed {
            125u8
        } else {
            93u8
        },
    ];
    let open = seq![
        if keyed {
            123u8
        } else {
            91u8
        },
    ];
    assert(p =~= open + line_end(formatted) + all + closing_indent(formatted, d) + close);
    lemma_members_from(items, 0, keyed, formatted, d);
    lemma_lead_keyed(items[0], formatted, d + 1);
    let tail = all + closing_indent(formatted, d) + close;
    assert(printed_upto(items, 0, keyed, formatted, d + 1) =~= Seq::<u8>::empty());
    let body = printed(items[0], formatted, d + 1);
    let after = after_member(items, 0, keyed, formatted, d);
    assert(p =~= open + line_end(formatted) + tail);
    if keyed {
        assert(tail =~= closing_indent(formatted, d + 1) + (key_text(items[0], formatted) + body
            + after));
        assert(p =~= seq![123u8] + ((line_end(formatted) + closing_indent(formatted, d + 1)) + (
        key_text(items[0], formatted) + body + after)));
    } else {
        assert(tail =~= closing_indent(formatted, d + 1) + (body + after));
        assert(p =~= seq![91u8] + ((line_end(formatted) + closing_indent(formatted, d + 1)) + (body
            + after)));
    }
}

/// The text of a printable array reads back.
proof fn lemma_array_reads(
    t: Node,
    formatted: bool,
    d: nat,
    s: Seq<u8>,
    pos: int,
    depth: nat,
    limit: nat,
)
    requires
        t.value is Array,
        printable(t),
        t.depth() + depth <= limit,
        at(s, pos, printed(t, formatted, d)),
    ensures
        read_value(s, pos, depth, limit) matches Ok((again, end)) && end == pos + printed(
            t,
            formatted,
            d,
        ).len() && alike(again, t),
    decreases t, 0nat,
{
    let items = t.value->Array_0;
    let p = printed(t, formatted, d);
    assert(s[pos] == p[0]);
    if items.len() == 0 {
        assert(s[pos + 1] == p[1]);
        lemma_skip_run(s, pos + 1, Seq::empty());
        assert(alike(array_of(Seq::empty()), t));
    } else {
        lemma_container_text(t, formatted, d);
        let run = line_end(formatted) + closing_indent(formatted, d + 1);
        let body = printed(items[0], formatted, d + 1);
        let rest = body + after_member(items, 0, false, formatted, d);
        lemma_at_split(s, pos, seq![91u8], run + rest);
        lemma_at_split(s, pos + 1, run, rest);
        lemma_printed_begins(items[0], formatted, d + 1);
        assert(s[pos + 1 + run.len()] == rest[0]);
        lemma_blank_run(formatted, d + 1);
        lemma_skip_run(s, pos + 1, run);
        crate::parse::lemma_deepest_bounds(items);
        lemma_elements_read(
            items,
            0,
            formatted,
            d,
            s,
            pos + 1 + run.len(),
            depth + 1,
            limit,
            Seq::empty(),
        );
    }
}

/// The text of a printable object reads back.
proof fn lemma_object_reads(
    t: Node,
    formatted: bool,
    d: nat,
    s: Seq<u8>,
    pos: int,
    depth: nat,
    limit: nat,
)
    requires
        t.value is Object,
        printable(t),
        t.depth() + depth <= limit,
        at(s, pos, printed(t, formatted, d)),
    ensures
        read_value(s, pos, depth, limit) matches Ok((again, end)) && end == pos + printed(
            t,
            formatted,
            d,
        ).len() && alike(again, t),
    decreases t, 0nat,
{
    let items = t.value->Object_0;
    let p = printed(t, formatted, d);
    assert(s[pos] == p[0]);
    if items.len() == 0 {
        let run = line_end(formatted) + closing_indent(formatted, d);
        assert(p =~= seq![123u8] + (run + seq![125u8]));
        lemma_at_split(s, pos, seq![123u8], run + seq![125u8]);
        lemma_at_split(s, pos + 1, run, seq![125u8]);
        assert(s[pos + 1 + run.len()] == seq![125u8][0]);
        lemma_blank_run(formatted, d);
        lemma_skip_run(s, pos + 1, run);
        assert(alike(object_of(Seq::empty()), t));
    } else {
        lemma_container_text(t, formatted, d);
        let run = line_end(formatted) + closing_indent(formatted, d + 1);
        let body = printed(items[0], formatted, d + 1);
        let rest = key_text(items[0], formatted) + body + after_member(
            items,
            0,
            true,
            formatted,
            d,
        );
        lemma_at_split(s, pos, seq![123u8], run + rest);
        lemma_at_split(s, pos + 1, run, rest);
        assert(rest[0] == 34) by {
            assert(quoted(items[0].key->Some_0)[0] == 34);
        }
        assert(s[pos + 1 + run.len()] == rest[0]);
        lemma_blank_run(formatted, d + 1);
        lemma_skip_run(s, pos + 1, run);
        crate::parse::lemma_deepest_bounds(items);
        lemma_members_read(
            items,
            0,
            formatted,
            d,
            s,
            pos + 1 + run.len(),
            depth + 1,
            limit,
            Seq::empty(),
        );
    }
}

/// The members of a printable array from the one at `k` on read back,
/// behind those that were read before.
proof fn lemma_elements_read(
    items: Seq<Node>,
    k: int,
    formatted: bool,
    d: nat,
    s: Seq<u8>,
    pos: int,
    depth: nat,
    limit: nat,
    acc: Seq<Node>,
)
    requires
        0 <= k < items.len(),
        forall|i: int| 0 <= i < items.len() ==> printable(#[trigger] items[i]),
        forall|i: int| 0 <= i < items.len() ==> (#[trigger] items[i]).depth() + depth <= limit,
        at(
            s,
            pos,
            printed(items[k], formatted, d + 1) + after_member(items, k, false, formatted, d),
        ),
        read_alike(acc, items, k, false),
    ensures
        read_elements(s, pos, depth, limit, acc) matches Ok((again, end)) && end == pos + (printed(
            items[k],
            formatted,
            d + 1,
        ) + after_member(items, k, false, formatted, d)).len() && again.value is Array && read_alike(
            again.members(),
            items,
            items.len() as int,
            false,
        ),
    decreases items, items.len() - k,
{
    let body = printed(items[k], formatted, d + 1);
    let rest = after_member(items, k, false, formatted, d);
    lemma_at_split(s, pos, body, rest);
    let end = pos + body.len();
    if k + 1 == items.len() {
        lemma_tail_last(s, end, formatted, d, 93);
        lemma_printed_reads(items[k], formatted, d + 1, s, pos, depth, limit);
        let item = read_value(s, pos, depth, limit)->Ok_0.0;
        lemma_read_one_more(acc, items, k, false, item, None);
    } else {
        lemma_lead_keyed(items[k + 1], formatted, d + 1);
        lemma_printed_begins(items[k + 1], formatted, d + 1);
        let next = printed(items[k + 1], formatted, d + 1) + after_member(
            items,
            k + 1,
            false,
            formatted,
            d,
        );
        assert(rest =~= member_tail(false, formatted) + closing_indent(formatted, d + 1) + next);
        lemma_tail_more(s, end, formatted, d + 1, next);
        lemma_printed_reads(items[k], formatted, d + 1, s, pos, depth, limit);
        let item = read_value(s, pos, depth, limit)->Ok_0.0;
        lemma_read_one_more(acc, items, k, false, item, None);
        let more = acc.push(placed(item, None, acc.len()));
        let there = end + (member_tail(false, formatted) + closing_indent(formatted, d + 1)).len();
        lemma_elements_read(items, k + 1, formatted, d, s, there, depth, limit, more);
    }
}

/// The members of a printable object from the one at `k` on read back,
/// behind those that were read before.
proof fn lemma_members_read(
    items: Seq<Node>,
    k: int,
    formatted: bool,
    d: nat,
    s: Seq<u8>,
    pos: int,
    depth: nat,
    limit: nat,
    acc: Seq<Node>,
)
    requires
        0 <= k < items.len(),
        forall|i: int|
            0 <= i < items.len() ==> printable(#[trigger] items[i]) && (items[i].key matches Some(
                key,
            ) && nul_free(key)),
        forall|i: int| 0 <= i < items.len() ==> (#[trigger] items[i]).depth() + depth <= limit,
        at(
            s,
            pos,
            key_text(items[k], formatted) + printed(items[k], formatted, d + 1) + after_member(
                items,
                k,
                true,
                formatted,
                d,
            ),
        ),
        read_alike(acc, items, k, true),
    ensures
        read_members(s, pos, depth, limit, acc) matches Ok((again, end)) && end == pos + (key_text(
            items[k],
            formatted,
        ) + printed(items[k], formatted, d + 1) + after_member(items, k, true, formatted, d)).len()
            && again.value is Object && read_alike(
            again.members(),
            items,
            items.len() as int,
            true,
        ),
    decreases items, items.len() - k,
{
    let key = key_text(items[k], formatted);
    let body = printed(items[k], formatted, d + 1);
    let rest = after_member(items, k, true, formatted, d);
    assert(key + body + rest =~= key + (body + rest));
    lemma_at_split(s, pos, key, body + rest);
    let start = pos + key.len();
    lemma_at_split(s, start, body, rest);
    lemma_printed_begins(items[k], formatted, d + 1);
    assert(s[start] == body[0]);
    lemma_key_reads(s, pos, items[k], formatted);
    let end = start + body.len();
    if k + 1 == items.len() {
        lemma_tail_last(s, end, formatted, d, 125);
        lemma_printed_reads(items[k], formatted, d + 1, s, start, depth, limit);
        let item = read_value(s, start, depth, limit)->Ok_0.0;
        lemma_read_one_more(acc, items, k, true, item, items[k].key);
    } else {
        lemma_lead_keyed(items[k + 1], formatted, d + 1);
        let next = key_text(items[k + 1], formatted) + printed(items[k + 1], formatted, d + 1)
            + after_member(items, k + 1, true, formatted, d);
        assert(next[0] == 34) by {
            assert(quoted(items[k + 1].key->Some_0)[0] == 34);
        }
        assert(rest =~= member_tail(false, formatted) + closing_indent(formatted, d + 1) + next);
        lemma_tail_more(s, end, formatted, d + 1, next);
        lemma_printed_reads(items[k], formatted, d + 1, s, start, depth, limit);
        let item = read_value(s, start, depth, limit)->Ok_0.0;
        lemma_read_one_more(acc, items, k, true, item, items[k].key);
        let more = acc.push(placed(item, items[k].key, acc.len()));
        let there = end + (member_tail(false, formatted) + closing_indent(formatted, d + 1)).len();
        lemma_members_read(items, k + 1, formatted, d, s, there, depth, limit, more);
    }
}

/// Every number of the tree is a number: none is an infinity or a NaN.
pub open spec fn numbers_finite(t: Node) -> bool
    decreases t,
{
    match t.value {
        Value::Number(bits) => is_finite(bits),
        Value::Array(items) => forall|i: int|
            0 <= i < items.len() ==> numbers_finite(#[trigger] items[i]),
        Value::Object(items) => forall|i: int|
            0 <= i < items.len() ==> numbers_finite(#[trigger] items[i]),
        _ => true,
    }
}

/// Every number of the tree reads back from its digits in full.
pub open spec fn numbers_read(t: Node) -> bool
    decreases t,
{
    match t.value {
        Value::Number(bits) => is_zero(bits) || exact_reads(bits),
        Value::Array(items) => forall|i: int|
            0 <= i < items.len() ==> numbers_read(#[trigger] items[i]),
        Value::Object(items) => forall|i: int|
            0 <= i < items.len() ==> numbers_read(#[trigger] items[i]),
        _ => true,
    }
}

/// A well-formed tree without raw text whose numbers are numbers that read
/// back is printable.
pub proof fn lemma_printable(t: Node)
    requires
        t.wf(),
        crate::parse::raw_free(t),
        numbers_finite(t),
        numbers_read(t),
    ensures
        printable(t),
    decreases t,
{
    match t.value {
        Value::Array(items) => {
            assert forall|i: int| 0 <= i < items.len() implies printable(#[trigger] items[i]) by {
                lemma_printable(items[i]);
            }
        },
        Value::Object(items) => {
            assert forall|i: int| 0 <= i < items.len() implies ((#[trigger] items[i]).key matches Some(
                k,
            ) && nul_free(k)) && printable(items[i]) by {
                lemma_printable(items[i]);
                assert(items[i].wf());
            }
        },
        _ => {},
    }
}

/// The escape of a byte that is not zero holds no zero byte.
proof fn lemma_escaped_nul_free(text: Seq<u8>)
    requires
        nul_free(text),
    ensures
        nul_free(escaped(text)),
        nul_free(quoted(text)),
    decreases text.len(),
{
    if text.len() > 0 {
        let rest = text.drop_first();
        assert(nul_free(rest)) by {
            assert forall|i: int| 0 <= i < rest.len() implies rest[i] != 0 by {
                assert(rest[i] == text[i + 1]);
            }
        }
        lemma_escaped_nul_free(rest);
        let e = escape_of(text[0]);
        assert(nul_free(e));
        lemma_nul_free_concat(e, escaped(rest));
    }
    lemma_nul_free_concat(seq![34u8], escaped(text));
    lemma_nul_free_concat(seq![34u8] + escaped(text), seq![34u8]);
}

/// Texts without a zero byte, end to end, hold none.
pub proof fn lemma_nul_free_concat(a: Seq<u8>, b: Seq<u8>)
    requires
        nul_free(a),
        nul_free(b),
    ensures
        nul_free(a + b),
{
    let ab = a + b;
    assert forall|i: int| 0 <= i < ab.len() implies ab[i] != 0 by {
        if i < a.len() {
            assert(ab[i] == a[i]);
        } else {
            assert(ab[i] == b[i - a.len()]);
        }
    }
}

/// A text that reads as a number, all of it, holds no zero byte.
proof fn lemma_number_nul_free(t: Seq<u8>, bits: u64)
    requires
        reads_as(t, bits),
    ensures
        nul_free(t),
{
    crate::lex::lemma_number_shape(t, 0);
    let shape = number_shape(t, 0)->Ok_0.0;
    crate::lex::lemma_skip_digits(t, shape.whole);
    if shape.fraction <= t.len() {
        crate::lex::lemma_skip_digits(t, shape.fraction);
    }
    if shape.exponent <= t.len() {
        crate::lex::lemma_skip_digits(t, shape.exponent);
    }
    assert forall|i: int| 0 <= i < t.len() implies t[i] != 0 by {
        if i < shape.whole {
        } else if i < shape.whole_end {
            assert(is_digit(t[i]));
        } else if i < shape.fraction {
        } else if i < shape.fraction_end {
            assert(is_digit(t[i]));
        } else if i < shape.exponent {
        } else {
            assert(is_digit(t[i]));
        }
    }
}

/// The text of a printable tree holds no zero byte.
pub proof fn lemma_printed_nul_free(t: Node, formatted: bool, depth: nat)
    requires
        printable(t),
    ensures
        nul_free(printed(t, formatted, depth)),
    decreases t, 0nat,
{
    match t.value {
        Value::Number(bits) => {
            lemma_number_text_reads(bits);
            if is_zero(bits) {
                lemma_number_nul_free(number_text(bits), 0);
            } else {
                lemma_number_nul_free(number_text(bits), bits);
            }
        },
        Value::String(text) => {
            lemma_escaped_nul_free(text);
        },
        Value::Array(items) => {
            if items.len() > 0 {
                lemma_members_nul_free(items, items.len(), false, formatted, depth + 1);
                let a = seq![91u8] + line_end(formatted);
                let b = printed_upto(items, items.len(), false, formatted, depth + 1);
                lemma_nul_free_concat(a, b);
                lemma_nul_free_concat(a + b, closing_indent(formatted, depth));
                lemma_nul_free_concat(a + b + closing_indent(formatted, depth), seq![93u8]);
            }
        },
        Value::Object(items) => {
            lemma_members_nul_free(items, items.len(), true, formatted, depth + 1);
            let a = seq![123u8] + line_end(formatted);
            let b = printed_upto(items, items.len(), true, formatted, depth + 1);
            lemma_nul_free_concat(a, b);
            lemma_nul_free_concat(a + b, closing_indent(formatted, depth));
            lemma_nul_free_concat(a + b + closing_indent(formatted, depth), seq![125u8]);
        },
        _ => {},
    }
}

/// The text of the members of a printable container holds no zero byte.
proof fn lemma_members_nul_free(
    items: Seq<Node>,
    n: nat,
    keyed: bool,
    formatted: bool,
    depth: nat,
)
    requires
        n <= items.len(),
        forall|i: int| 0 <= i < items.len() ==> printable(#[trigger] items[i]),
        keyed ==> forall|i: int|
            0 <= i < items.len() ==> ((#[trigger] items[i]).key matches Some(k) && nul_free(k)),
    ensures
        nul_free(printed_upto(items, n, keyed, formatted, depth)),
    decreases items, n,
{
    if n > 0 {
        lemma_members_nul_free(items, (n - 1) as nat, keyed, formatted, depth);
        let member = items[n - 1];
        lemma_printed_nul_free(member, formatted, depth);
        if keyed {
            lemma_escaped_nul_free(member.key->Some_0);
        }
        let lead = member_lead(member, keyed, formatted, depth);
        assert(nul_free(lead)) by {
            let tabs = closing_indent(formatted, depth);
            if keyed {
                let colon = seq![58u8] + if formatted {
                    seq![32u8]
                } else {
                    Seq::<u8>::empty()
                };
                lemma_nul_free_concat(quoted_key(member.key), seq![58u8]);
                lemma_nul_free_concat(
                    quoted_key(member.key) + seq![58u8],
                    if formatted {
                        seq![32u8]
                    } else {
                        Seq::<u8>::empty()
                    },
                );
                lemma_nul_free_concat(
                    tabs,
                    quoted_key(member.key) + seq![58u8] + if formatted {
                        seq![32u8]
                    } else {
                        Seq::<u8>::empty()
                    },
                );
            } else {
                lemma_nul_free_concat(tabs, Seq::<u8>::empty());
            }
        }
        let tail = member_tail(n == items.len(), formatted);
        let before = printed_upto(items, (n - 1) as nat, keyed, formatted, depth);
        lemma_nul_free_concat(before, lead);
        lemma_nul_free_concat(before + lead, printed(member, formatted, depth));
        lemma_nul_free_concat(before + lead + printed(member, formatted, depth), tail);
    }
}

} // verus!
