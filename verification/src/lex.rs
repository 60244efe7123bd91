//! The tokens of JSON text: blanks, the three literals, numbers and
//! strings. Each is a function of the text and a place in it.

use vstd::prelude::*;
use crate::decimal::{all_digits, decimal_to_double, digits_value, double_of_decimal};
use crate::error::JsonError;

verus! {

/// What reading a token, or a value, at a place gives: what was read and
/// the place behind it, or why the text is refused.
pub type Read<T> = Result<(T, int), JsonError>;

/// The text is refused at `at`.
pub open spec fn refuse<T>(at: int) -> Read<T> {
    Err(JsonError::ParseError(at as usize))
}

/// A blank between tokens: space, tab, line feed or carriage return.
pub open spec fn is_blank(b: u8) -> bool {
    b == 32 || b == 9 || b == 10 || b == 13
}

/// An ASCII digit.
pub open spec fn is_digit(b: u8) -> bool {
    48 <= b <= 57
}

/// The first place from `pos` on that holds no blank.
pub open spec fn skip_blanks(s: Seq<u8>, pos: int) -> int
    decreases s.len() - pos,
{
    if 0 <= pos < s.len() && is_blank(s[pos]) {
        skip_blanks(s, pos + 1)
    } else {
        pos
    }
}

/// The first place from `pos` on that holds no digit.
pub open spec fn skip_digits(s: Seq<u8>, pos: int) -> int
    decreases s.len() - pos,
{
    if 0 <= pos < s.len() && is_digit(s[pos]) {
        skip_digits(s, pos + 1)
    } else {
        pos
    }
}

/// The text holds `word` at `pos`.
pub open spec fn holds(s: Seq<u8>, pos: int, word: Seq<u8>) -> bool {
    0 <= pos && pos + word.len() <= s.len() && s.subrange(pos, pos + word.len()) == word
}

/// The bytes of `null`.
pub open spec fn word_null() -> Seq<u8> {
    seq![110u8, 117u8, 108u8, 108u8]
}

/// The bytes of `true`.
pub open spec fn word_true() -> Seq<u8> {
    seq![116u8, 114u8, 117u8, 101u8]
}

/// The bytes of `false`.
pub open spec fn word_false() -> Seq<u8> {
    seq![102u8, 97u8, 108u8, 115u8, 101u8]
}

/// A digit is at `pos`.
pub open spec fn digit_at(s: Seq<u8>, pos: int) -> bool {
    0 <= pos < s.len() && is_digit(s[pos])
}

/// The byte `b` is at `pos`.
pub open spec fn byte_at(s: Seq<u8>, pos: int, b: u8) -> bool {
    0 <= pos < s.len() && s[pos] == b
}

/// The parts of a number as it is written, by the places where they end:
/// after the sign, the whole digits, the fraction and the exponent.
pub struct NumberShape {
    pub negative: bool,
    /// Where the whole digits begin.
    pub whole: int,
    /// Where the whole digits end.
    pub whole_end: int,
    /// Where the digits of the fraction begin; `whole_end` where there is
    /// no fraction.
    pub fraction: int,
    /// Where the fraction ends.
    pub fraction_end: int,
    /// Whether an exponent is written, and whether it is negative.
    pub has_exponent: bool,
    pub exponent_negative: bool,
    /// Where the digits of the exponent begin and end; both are
    /// `fraction_end` where there is no exponent.
    pub exponent: int,
    pub end: int,
}

/// Reads the whole part of a number at `pos`: an optional minus, and a
/// zero, or a digit from 1 to 9 and any digits. A digit may not follow a
/// leading zero. Gives whether there is a minus, where the digits begin,
/// and where they end.
pub open spec fn whole_part(s: Seq<u8>, pos: int) -> Read<(bool, int)> {
    let negative = byte_at(s, pos, 45);
    let whole = if negative {
        pos + 1
    } else {
        pos
    };
    if !digit_at(s, whole) {
        refuse(whole)
    } else {
        let whole_end = if s[whole] == 48 {
            whole + 1
        } else {
            skip_digits(s, whole)
        };
        if digit_at(s, whole_end) {
            refuse(whole_end)
        } else {
            Ok(((negative, whole), whole_end))
        }
    }
}

/// Reads the fraction of a number behind its whole part: nothing, or a
/// point and one digit or more. Gives where the digits begin and where
/// they end.
pub open spec fn fraction_part(s: Seq<u8>, whole_end: int) -> Read<int> {
    if byte_at(s, whole_end, 46) {
        if digit_at(s, whole_end + 1) {
            Ok((whole_end + 1, skip_digits(s, whole_end + 1)))
        } else {
            refuse(whole_end + 1)
        }
    } else {
        Ok((whole_end, skip_digits(s, whole_end)))
    }
}

/// Reads the exponent of a number behind its fraction: nothing, or `e` or
/// `E`, an optional sign, and one digit or more. Gives whether there is
/// an exponent, whether it is negative, where its digits begin, and where
/// they end.
pub open spec fn exponent_part(s: Seq<u8>, fraction_end: int) -> Read<(bool, bool, int)> {
    if byte_at(s, fraction_end, 101) || byte_at(s, fraction_end, 69) {
        let negative = byte_at(s, fraction_end + 1, 45);
        let signed = negative || byte_at(s, fraction_end + 1, 43);
        let exponent = if signed {
            fraction_end + 2
        } else {
            fraction_end + 1
        };
        if digit_at(s, exponent) {
            Ok(((true, negative, exponent), skip_digits(s, exponent)))
        } else {
            refuse(exponent)
        }
    } else {
        Ok(((false, false, fraction_end), fraction_end))
    }
}

/// Reads the shape of a number at `pos`: the whole part, the fraction and
/// the exponent.
pub open spec fn number_shape(s: Seq<u8>, pos: int) -> Read<NumberShape> {
    match whole_part(s, pos) {
        Err(e) => Err(e),
        Ok(((negative, whole), whole_end)) => match fraction_part(s, whole_end) {
            Err(e) => Err(e),
            Ok((fraction, fraction_end)) => match exponent_part(s, fraction_end) {
                Err(e) => Err(e),
                Ok(((has_exponent, exponent_negative, exponent), end)) => Ok(
                    (
                        NumberShape {
                            negative,
                            whole,
                            whole_end,
                            fraction,
                            fraction_end,
                            has_exponent,
                            exponent_negative,
                            exponent,
                            end,
                        },
                        end,
                    ),
                ),
            },
        },
    }
}

impl NumberShape {
    /// The digits of the number: those of the whole part, then those of
    /// the fraction.
    pub open spec fn digits(self, s: Seq<u8>) -> Seq<u8> {
        s.subrange(self.whole, self.whole_end) + s.subrange(self.fraction, self.fraction_end)
    }

    /// The power of ten by which the digits, read as a whole number, are
    /// to be multiplied: the exponent as written, less the length of the
    /// fraction.
    pub open spec fn power_of_ten(self, s: Seq<u8>) -> int {
        let written = digits_value(s.subrange(self.exponent, self.end)) as int;
        (if self.exponent_negative {
            -written
        } else {
            written
        }) - (self.fraction_end - self.fraction)
    }

    /// The double that the number stands for.
    pub open spec fn double(self, s: Seq<u8>) -> u64 {
        double_of_decimal(
            self.negative,
            digits_value(self.digits(s)),
            self.power_of_ten(s),
            self.digits(s).len(),
        )
    }
}

/// Reads a number at `pos`: the bits of the double nearest to it.
pub open spec fn read_number(s: Seq<u8>, pos: int) -> Read<u64> {
    match number_shape(s, pos) {
        Ok((shape, end)) => Ok((shape.double(s), end)),
        Err(e) => Err(e),
    }
}

/// Stepping over blanks ends within the text, behind blanks alone, before
/// what is no blank.
pub proof fn lemma_skip_blanks(s: Seq<u8>, pos: int)
    requires
        0 <= pos <= s.len(),
    ensures
        pos <= skip_blanks(s, pos) <= s.len(),
        forall|i: int| pos <= i < skip_blanks(s, pos) ==> is_blank(#[trigger] s[i]),
        skip_blanks(s, pos) < s.len() ==> !is_blank(s[skip_blanks(s, pos)]),
    decreases s.len() - pos,
{
    if pos < s.len() && is_blank(s[pos]) {
        lemma_skip_blanks(s, pos + 1);
    }
}

/// Stepping over digits ends within the text, behind digits alone, before
/// what is no digit.
pub proof fn lemma_skip_digits(s: Seq<u8>, pos: int)
    requires
        0 <= pos <= s.len(),
    ensures
        pos <= skip_digits(s, pos) <= s.len(),
        forall|i: int| pos <= i < skip_digits(s, pos) ==> is_digit(#[trigger] s[i]),
        !digit_at(s, skip_digits(s, pos)),
    decreases s.len() - pos,
{
    if pos < s.len() && is_digit(s[pos]) {
        lemma_skip_digits(s, pos + 1);
    }
}

/// Steps over the blanks from `pos` on.
pub fn pass_blanks(s: &[u8], pos: usize) -> (r: usize)
    requires
        pos <= s.len(),
    ensures
        r == skip_blanks(s@, pos as int),
        pos <= r <= s.len(),
{
    let mut i: usize = pos;
    while i < s.len() && (s[i] == 32 || s[i] == 9 || s[i] == 10 || s[i] == 13)
        invariant
            pos <= i <= s.len(),
            skip_blanks(s@, pos as int) == skip_blanks(s@, i as int),
        decreases s.len() - i,
    {
        i += 1;
    }
    i
}

/// Steps over the digits from `pos` on.
pub fn pass_digits(s: &[u8], pos: usize) -> (r: usize)
    requires
        pos <= s.len(),
    ensures
        r == skip_digits(s@, pos as int),
        pos <= r <= s.len(),
        all_digits(s@.subrange(pos as int, r as int)),
{
    let mut i: usize = pos;
    while i < s.len() && 48 <= s[i] && s[i] <= 57
        invariant
            pos <= i <= s.len(),
            skip_digits(s@, pos as int) == skip_digits(s@, i as int),
            forall|k: int| pos <= k < i ==> is_digit(#[trigger] s@[k]),
        decreases s.len() - i,
    {
        i += 1;
    }
    i
}

/// Whether the text holds the bytes of `word` at `pos`.
pub fn holds_word(s: &[u8], pos: usize, word: &[u8]) -> (r: bool)
    requires
        pos <= s.len(),
    ensures
        r == holds(s@, pos as int, word@),
{
    if word.len() > s.len() - pos {
        return false;
    }
    let mut i: usize = 0;
    while i < word.len()
        invariant
            i <= word.len(),
            pos + word.len() <= s.len(),
            forall|k: int| 0 <= k < i ==> s@[pos + k] == word@[k],
        decreases word.len() - i,
    {
        if s[pos + i] != word[i] {
            proof {
                assert(s@.subrange(pos as int, pos + word.len())[i as int] == s@[pos + i]);
            }
            return false;
        }
        i += 1;
    }
    proof {
        assert(s@.subrange(pos as int, pos + word.len()) =~= word@);
    }
    true
}

/// What reading gave agrees with what the text says: the same value, by
/// its view, and the same place, or the same refusal.
pub open spec fn read_as<T, V>(r: Result<(T, usize), JsonError>, view: spec_fn(T) -> V, said: Read<
    V,
>) -> bool {
    match r {
        Ok((x, end)) => said == Ok::<(V, int), JsonError>((view(x), end as int)),
        Err(e) => said == Err::<(V, int), JsonError>(e),
    }
}

/// The greatest exponent that is told apart from greater ones: 2^70.
pub open spec fn exponent_cap() -> nat {
    0x40_0000_0000_0000_0000
}

/// An exponent cut off at the cap.
pub open spec fn capped(x: nat) -> nat {
    if x >= exponent_cap() {
        exponent_cap()
    } else {
        x
    }
}

/// The number that the digits from `from` to `to` stand for, cut off at
/// the cap.
fn capped_value(s: &[u8], from: usize, to: usize) -> (r: u128)
    requires
        from <= to <= s.len(),
        all_digits(s@.subrange(from as int, to as int)),
    ensures
        r == capped(digits_value(s@.subrange(from as int, to as int))),
{
    let mut acc: u128 = 0;
    let mut i: usize = from;
    proof {
        assert(s@.subrange(from as int, from as int) =~= Seq::<u8>::empty());
    }
    while i < to
        invariant
            from <= i <= to <= s.len(),
            all_digits(s@.subrange(from as int, to as int)),
            acc == capped(digits_value(s@.subrange(from as int, i as int))),
        decreases to - i,
    {
        let d: u8 = s[i];
        proof {
            assert(s@.subrange(from as int, to as int)[i - from] == d);
            assert(s@.subrange(from as int, i as int + 1).drop_last() =~= s@.subrange(
                from as int,
                i as int,
            ));
        }
        acc = acc * 10 + (d - 48) as u128;
        if acc >= 0x40_0000_0000_0000_0000 {
            acc = 0x40_0000_0000_0000_0000;
        }
        i += 1;
    }
    acc
}

/// Copies the bytes from `from` to `to` to the end of `out`.
fn copy_range(s: &[u8], from: usize, to: usize, out: &mut Vec<u8>)
    requires
        from <= to <= s.len(),
    ensures
        final(out)@ == old(out)@ + s@.subrange(from as int, to as int),
{
    let mut i: usize = from;
    proof {
        assert(out@ =~= old(out)@ + s@.subrange(from as int, from as int));
    }
    while i < to
        invariant
            from <= i <= to <= s.len(),
            out@ == old(out)@ + s@.subrange(from as int, i as int),
        decreases to - i,
    {
        out.push(s[i]);
        proof {
            assert(out@ =~= old(out)@ + s@.subrange(from as int, i as int + 1));
        }
        i += 1;
    }
}

/// An exponent beyond the cap is as good as the cap: the double is the
/// same.
proof fn lemma_capped_exponent(
    negative: bool,
    d: nat,
    digits: nat,
    written: nat,
    exponent_negative: bool,
    fraction: nat,
)
    requires
        fraction <= digits,
        digits < 0x1_0000_0000_0000_0000,
    ensures
        double_of_decimal(
            negative,
            d,
            (if exponent_negative {
                -(written as int)
            } else {
                written as int
            }) - fraction,
            digits,
        ) == double_of_decimal(
            negative,
            d,
            (if exponent_negative {
                -(capped(written) as int)
            } else {
                capped(written) as int
            }) - fraction,
            digits,
        ),
{
}

/// The places of the parts of a number in the text.
pub struct Shape {
    pub negative: bool,
    pub whole: usize,
    pub whole_end: usize,
    pub fraction: usize,
    pub fraction_end: usize,
    pub has_exponent: bool,
    pub exponent_negative: bool,
    pub exponent: usize,
    pub end: usize,
}

impl View for Shape {
    type V = NumberShape;

    open spec fn view(&self) -> NumberShape {
        NumberShape {
            negative: self.negative,
            whole: self.whole as int,
            whole_end: self.whole_end as int,
            fraction: self.fraction as int,
            fraction_end: self.fraction_end as int,
            has_exponent: self.has_exponent,
            exponent_negative: self.exponent_negative,
            exponent: self.exponent as int,
            end: self.end as int,
        }
    }
}

impl NumberShape {
    /// The places are in order and within the text, and between them are
    /// digits.
    pub open spec fn fits(self, s: Seq<u8>) -> bool {
        &&& 0 <= self.whole < self.whole_end <= self.fraction <= self.fraction_end
            <= self.exponent <= self.end <= s.len()
        &&& all_digits(s.subrange(self.whole, self.whole_end))
        &&& all_digits(s.subrange(self.fraction, self.fraction_end))
        &&& all_digits(s.subrange(self.exponent, self.end))
    }
}

/// Finds the parts of a number at `pos`.
pub fn scan_shape(s: &[u8], pos: usize) -> (r: Result<Shape, JsonError>)
    requires
        pos <= s.len(),
    ensures
        match r {
            Ok(shape) => number_shape(s@, pos as int) == Ok::<(NumberShape, int), JsonError>(
                (shape@, shape.end as int),
            ) && shape@.fits(s@) && pos <= shape.whole,
            Err(e) => number_shape(s@, pos as int) == Err::<(NumberShape, int), JsonError>(e),
        },
{
    let len = s.len();
    let negative = pos < len && s[pos] == 45;
    let whole: usize = if negative {
        pos + 1
    } else {
        pos
    };
    if !(whole < len && 48 <= s[whole] && s[whole] <= 57) {
        return Err(JsonError::ParseError(whole));
    }
    let whole_end: usize = if s[whole] == 48 {
        whole + 1
    } else {
        pass_digits(s, whole)
    };
    proof {
        lemma_skip_digits(s@, whole as int);
        assert(all_digits(s@.subrange(whole as int, whole_end as int)));
    }
    if whole_end < len && 48 <= s[whole_end] && s[whole_end] <= 57 {
        return Err(JsonError::ParseError(whole_end));
    }
    let has_fraction = whole_end < len && s[whole_end] == 46;
    let fraction: usize = if has_fraction {
        whole_end + 1
    } else {
        whole_end
    };
    if has_fraction && !(fraction < len && 48 <= s[fraction] && s[fraction] <= 57) {
        return Err(JsonError::ParseError(fraction));
    }
    let fraction_end = pass_digits(s, fraction);
    let has_exponent = fraction_end < len && (s[fraction_end] == 101 || s[fraction_end] == 69);
    if !has_exponent {
        proof {
            assert(s@.subrange(fraction_end as int, fraction_end as int) =~= Seq::<u8>::empty());
        }
        return Ok(
            Shape {
                negative,
                whole,
                whole_end,
                fraction,
                fraction_end,
                has_exponent,
                exponent_negative: false,
                exponent: fraction_end,
                end: fraction_end,
            },
        );
    }
    let exponent_negative = fraction_end + 1 < len && s[fraction_end + 1] == 45;
    let signed = exponent_negative || (fraction_end + 1 < len && s[fraction_end + 1] == 43);
    let exponent: usize = if signed {
        fraction_end + 2
    } else {
        fraction_end + 1
    };
    if !(exponent < len && 48 <= s[exponent] && s[exponent] <= 57) {
        return Err(JsonError::ParseError(exponent));
    }
    let end = pass_digits(s, exponent);
    Ok(
        Shape {
            negative,
            whole,
            whole_end,
            fraction,
            fraction_end,
            has_exponent,
            exponent_negative,
            exponent,
            end,
        },
    )
}

/// The double that a number of the given shape stands for.
pub fn shape_to_double(s: &[u8], shape: &Shape) -> (r: u64)
    requires
        shape@.fits(s@),
    ensures
        r == shape@.double(s@),
{
    let mut digits: Vec<u8> = Vec::new();
    copy_range(s, shape.whole, shape.whole_end, &mut digits);
    copy_range(s, shape.fraction, shape.fraction_end, &mut digits);
    proof {
        assert(digits@ =~= shape@.digits(s@));
    }
    let written = capped_value(s, shape.exponent, shape.end);
    let e: i128 = (if shape.exponent_negative {
        -(written as i128)
    } else {
        written as i128
    }) - (shape.fraction_end - shape.fraction) as i128;
    proof {
        lemma_capped_exponent(
            shape.negative,
            digits_value(digits@),
            digits@.len(),
            digits_value(s@.subrange(shape.exponent as int, shape.end as int)),
            shape.exponent_negative,
            (shape.fraction_end - shape.fraction) as nat,
        );
    }
    decimal_to_double(shape.negative, digits.as_slice(), e)
}

/// Reads a number at `pos`.
pub fn scan_number(s: &[u8], pos: usize) -> (r: Result<(u64, usize), JsonError>)
    requires
        pos <= s.len(),
    ensures
        read_as(r, |x: u64| x, read_number(s@, pos as int)),
        r matches Ok((_, end)) ==> pos < end <= s.len(),
{
    match scan_shape(s, pos) {
        Ok(shape) => {
            let bits = shape_to_double(s, &shape);
            Ok((bits, shape.end))
        },
        Err(e) => Err(e),
    }
}

/// The value of a hexadecimal digit.
pub open spec fn hex_value(b: u8) -> Option<u32> {
    if 48 <= b <= 57 {
        Some((b - 48) as u32)
    } else if 65 <= b <= 70 {
        Some((b - 55) as u32)
    } else if 97 <= b <= 102 {
        Some((b - 87) as u32)
    } else {
        None
    }
}

/// The number that four hexadecimal digits at `pos` stand for.
pub open spec fn hex4(s: Seq<u8>, pos: int) -> Option<u32> {
    if 0 <= pos && pos + 4 <= s.len() && hex_value(s[pos]) is Some && hex_value(s[pos + 1]) is Some
        && hex_value(s[pos + 2]) is Some && hex_value(s[pos + 3]) is Some {
        Some(
            (((hex_value(s[pos])->Some_0 * 16 + hex_value(s[pos + 1])->Some_0) * 16 + hex_value(
                s[pos + 2],
            )->Some_0) * 16 + hex_value(s[pos + 3])->Some_0) as u32,
        )
    } else {
        None
    }
}

/// The UTF-8 bytes of a code point.
pub open spec fn utf8_of(cp: u32) -> Seq<u8> {
    if cp < 0x80 {
        seq![cp as u8]
    } else if cp < 0x800 {
        seq![(0xC0 + cp / 0x40) as u8, (0x80 + cp % 0x40) as u8]
    } else if cp < 0x1_0000 {
        seq![
            (0xE0 + cp / 0x1000) as u8,
            (0x80 + (cp / 0x40) % 0x40) as u8,
            (0x80 + cp % 0x40) as u8,
        ]
    } else {
        seq![
            (0xF0 + (cp / 0x4_0000) % 8) as u8,
            (0x80 + (cp / 0x1000) % 0x40) as u8,
            (0x80 + (cp / 0x40) % 0x40) as u8,
            (0x80 + cp % 0x40) as u8,
        ]
    }
}

/// What the character after a backslash stands for, where it is one of the
/// eight short escapes.
pub open spec fn short_escape(b: u8) -> Option<u8> {
    if b == 34 || b == 92 || b == 47 {
        Some(b)
    } else if b == 98 {
        Some(8u8)
    } else if b == 102 {
        Some(12u8)
    } else if b == 110 {
        Some(10u8)
    } else if b == 114 {
        Some(13u8)
    } else if b == 116 {
        Some(9u8)
    } else {
        None
    }
}

/// Reads the escape whose backslash is at `pos`: one of the short escapes,
/// or `\u` and four hexadecimal digits. A code point from D800 to DBFF is
/// the first half of a pair and must be followed by an escape from DC00 to
/// DFFF; a second half alone and the code point 0 are refused. The bytes
/// are those of the code point in UTF-8.
pub open spec fn read_escape(s: Seq<u8>, pos: int) -> Read<Seq<u8>> {
    if !(0 <= pos && pos + 1 < s.len()) {
        refuse(pos)
    } else if short_escape(s[pos + 1]) is Some {
        Ok((seq![short_escape(s[pos + 1])->Some_0], pos + 2))
    } else if s[pos + 1] != 117 {
        refuse(pos)
    } else {
        match hex4(s, pos + 2) {
            None => refuse(pos),
            Some(first) => {
                if 0xDC00 <= first <= 0xDFFF || first == 0 {
                    refuse(pos)
                } else if 0xD800 <= first <= 0xDBFF {
                    if byte_at(s, pos + 6, 92) && byte_at(s, pos + 7, 117) {
                        match hex4(s, pos + 8) {
                            Some(second) => if 0xDC00 <= second <= 0xDFFF {
                                Ok(
                                    (
                                        utf8_of(
                                            (0x1_0000 + (first - 0xD800) * 0x400 + (second
                                                - 0xDC00)) as u32,
                                        ),
                                        pos + 12,
                                    ),
                                )
                            } else {
                                refuse(pos)
                            },
                            None => refuse(pos),
                        }
                    } else {
                        refuse(pos)
                    }
                } else {
                    Ok((utf8_of(first), pos + 6))
                }
            },
        }
    }
}

/// Reads the rest of a string from `pos` on, behind the bytes `acc` read
/// so far: up to the closing quote, with every escape replaced by what it
/// stands for.
pub open spec fn string_from(s: Seq<u8>, pos: int, acc: Seq<u8>) -> Read<Seq<u8>>
    decreases s.len() - pos,
{
    if !(0 <= pos < s.len()) {
        refuse(pos)
    } else if s[pos] == 34 {
        Ok((acc, pos + 1))
    } else if s[pos] == 92 {
        match read_escape(s, pos) {
            Ok((bytes, next)) => if next > pos {
                string_from(s, next, acc + bytes)
            } else {
                refuse(pos)
            },
            Err(e) => Err(e),
        }
    } else {
        string_from(s, pos + 1, acc.push(s[pos]))
    }
}

/// Reads a string whose opening quote is at `pos`.
pub open spec fn read_string(s: Seq<u8>, pos: int) -> Read<Seq<u8>> {
    if byte_at(s, pos, 34) {
        string_from(s, pos + 1, Seq::empty())
    } else {
        refuse(pos)
    }
}

/// The value of a hexadecimal digit.
fn hex_digit(b: u8) -> (r: Option<u32>)
    ensures
        r == hex_value(b),
{
    if 48 <= b && b <= 57 {
        Some((b - 48) as u32)
    } else if 65 <= b && b <= 70 {
        Some((b - 55) as u32)
    } else if 97 <= b && b <= 102 {
        Some((b - 87) as u32)
    } else {
        None
    }
}

/// The number that four hexadecimal digits at `pos` stand for.
fn scan_hex4(s: &[u8], pos: usize) -> (r: Option<u32>)
    ensures
        r == hex4(s@, pos as int),
        r matches Some(x) ==> x <= 0xFFFF && pos + 4 <= s.len(),
{
    if s.len() < 4 || pos > s.len() - 4 {
        return None;
    }
    match (hex_digit(s[pos]), hex_digit(s[pos + 1]), hex_digit(s[pos + 2]), hex_digit(s[pos + 3])) {
        (Some(a), Some(b), Some(c), Some(d)) => Some(((a * 16 + b) * 16 + c) * 16 + d),
        _ => None,
    }
}

/// Appends the UTF-8 bytes of a code point.
fn push_utf8(out: &mut Vec<u8>, cp: u32)
    requires
        cp <= 0x10_FFFF,
    ensures
        final(out)@ == old(out)@ + utf8_of(cp),
{
    if cp < 0x80 {
        out.push(cp as u8);
    } else if cp < 0x800 {
        out.push((0xC0 + cp / 0x40) as u8);
        out.push((0x80 + cp % 0x40) as u8);
    } else if cp < 0x1_0000 {
        out.push((0xE0 + cp / 0x1000) as u8);
        out.push((0x80 + (cp / 0x40) % 0x40) as u8);
        out.push((0x80 + cp % 0x40) as u8);
    } else {
        out.push((0xF0 + (cp / 0x4_0000) % 8) as u8);
        out.push((0x80 + (cp / 0x1000) % 0x40) as u8);
        out.push((0x80 + (cp / 0x40) % 0x40) as u8);
        out.push((0x80 + cp % 0x40) as u8);
    }
    proof {
        assert(out@ =~= old(out)@ + utf8_of(cp));
    }
}

/// What the character after a backslash stands for.
fn short_escape_of(b: u8) -> (r: Option<u8>)
    ensures
        r == short_escape(b),
{
    if b == 34 || b == 92 || b == 47 {
        Some(b)
    } else if b == 98 {
        Some(8)
    } else if b == 102 {
        Some(12)
    } else if b == 110 {
        Some(10)
    } else if b == 114 {
        Some(13)
    } else if b == 116 {
        Some(9)
    } else {
        None
    }
}

/// Reads the escape whose backslash is at `pos`, and appends what it
/// stands for.
fn scan_escape(s: &[u8], pos: usize, out: &mut Vec<u8>) -> (r: Result<usize, JsonError>)
    requires
        pos < s.len(),
    ensures
        match r {
            Ok(next) => exists|bytes: Seq<u8>|
                read_escape(s@, pos as int) == Ok::<(Seq<u8>, int), JsonError>(
                    (bytes, next as int),
                ) && final(out)@ == old(out)@ + bytes,
            Err(e) => read_escape(s@, pos as int) == Err::<(Seq<u8>, int), JsonError>(e),
        },
        r matches Ok(next) ==> pos < next <= s.len(),
{
    if pos + 1 >= s.len() {
        return Err(JsonError::ParseError(pos));
    }
    let b: u8 = s[pos + 1];
    match short_escape_of(b) {
        Some(c) => {
            out.push(c);
            proof {
                assert(out@ =~= old(out)@ + seq![c]);
            }
            return Ok(pos + 2);
        },
        None => {},
    }
    if b != 117 {
        return Err(JsonError::ParseError(pos));
    }
    match scan_hex4(s, pos + 2) {
        None => Err(JsonError::ParseError(pos)),
        Some(first) => {
            if (0xDC00 <= first && first <= 0xDFFF) || first == 0 {
                Err(JsonError::ParseError(pos))
            } else if 0xD800 <= first && first <= 0xDBFF {
                if s.len() - pos > 7 && s[pos + 6] == 92 && s[pos + 7] == 117 {
                    match scan_hex4(s, pos + 8) {
                        Some(second) => {
                            if 0xDC00 <= second && second <= 0xDFFF {
                                push_utf8(
                                    out,
                                    0x1_0000 + (first - 0xD800) * 0x400 + (second - 0xDC00),
                                );
                                Ok(pos + 12)
                            } else {
                                Err(JsonError::ParseError(pos))
                            }
                        },
                        None => Err(JsonError::ParseError(pos)),
                    }
                } else {
                    Err(JsonError::ParseError(pos))
                }
            } else {
                push_utf8(out, first);
                Ok(pos + 6)
            }
        },
    }
}

/// Reads a string whose opening quote is at `pos`.
pub fn scan_string(s: &[u8], pos: usize) -> (r: Result<(Vec<u8>, usize), JsonError>)
    requires
        pos <= s.len(),
    ensures
        read_as(r, |x: Vec<u8>| x@, read_string(s@, pos as int)),
        r matches Ok((_, end)) ==> pos < end <= s.len(),
{
    if !(pos < s.len() && s[pos] == 34) {
        return Err(JsonError::ParseError(pos));
    }
    let mut out: Vec<u8> = Vec::new();
    let mut i: usize = pos + 1;
    loop
        invariant
            pos < i <= s.len(),
            read_string(s@, pos as int) == string_from(s@, i as int, out@),
        decreases s.len() - i,
    {
        if i >= s.len() {
            return Err(JsonError::ParseError(i));
        }
        let b: u8 = s[i];
        if b == 34 {
            return Ok((out, i + 1));
        } else if b == 92 {
            match scan_escape(s, i, &mut out) {
                Ok(next) => {
                    i = next;
                },
                Err(e) => {
                    return Err(e);
                },
            }
        } else {
            out.push(b);
            i += 1;
        }
    }
}

/// The UTF-8 bytes of a code point other than 0 hold no zero byte.
pub proof fn lemma_utf8_of_nul_free(cp: u32)
    requires
        0 < cp <= 0x10_FFFF,
    ensures
        crate::text::nul_free(utf8_of(cp)),
        utf8_of(cp).len() >= 1,
{
}

/// What an escape stands for holds no zero byte, and the escape is at
/// least two bytes long.
pub proof fn lemma_read_escape(s: Seq<u8>, pos: int)
    ensures
        read_escape(s, pos) matches Ok((bytes, next)) ==> crate::text::nul_free(bytes) && pos + 2
            <= next <= s.len(),
        read_escape(s, pos) matches Err(e) ==> e == JsonError::ParseError(pos as usize),
{
    match read_escape(s, pos) {
        Ok((bytes, next)) => {
            if short_escape(s[pos + 1]) is Some {
            } else {
                let first = hex4(s, pos + 2)->Some_0;
                if 0xD800 <= first <= 0xDBFF {
                    let second = hex4(s, pos + 8)->Some_0;
                    lemma_utf8_of_nul_free(
                        (0x1_0000 + (first - 0xD800) * 0x400 + (second - 0xDC00)) as u32,
                    );
                } else {
                    lemma_utf8_of_nul_free(first);
                }
            }
        },
        Err(e) => {},
    }
}

/// A string read from text without a zero byte holds none, and ends
/// within the text; a refusal is a parse error.
pub proof fn lemma_string_from(s: Seq<u8>, pos: int, acc: Seq<u8>)
    requires
        crate::text::nul_free(s),
        crate::text::nul_free(acc),
        0 <= pos,
    ensures
        string_from(s, pos, acc) matches Ok((text, end)) ==> crate::text::nul_free(text) && pos
            < end <= s.len(),
        string_from(s, pos, acc) matches Err(e) ==> e is ParseError,
    decreases s.len() - pos,
{
    if !(0 <= pos < s.len()) {
    } else if s[pos] == 34 {
    } else if s[pos] == 92 {
        lemma_read_escape(s, pos);
        match read_escape(s, pos) {
            Ok((bytes, next)) => {
                lemma_string_from(s, next, acc + bytes);
            },
            Err(e) => {},
        }
    } else {
        lemma_string_from(s, pos + 1, acc.push(s[pos]));
    }
}

/// A number ends within the text, behind where it begins; a refusal is a
/// parse error.
pub proof fn lemma_number_shape(s: Seq<u8>, pos: int)
    requires
        0 <= pos <= s.len(),
    ensures
        number_shape(s, pos) matches Ok((shape, end)) ==> pos < end <= s.len() && end == shape.end,
        number_shape(s, pos) matches Err(e) ==> e is ParseError,
{
    let negative = byte_at(s, pos, 45);
    let whole = if negative {
        pos + 1
    } else {
        pos
    };
    if digit_at(s, whole) {
        lemma_skip_digits(s, whole);
        let whole_end = if s[whole] == 48 {
            whole + 1
        } else {
            skip_digits(s, whole)
        };
        let fraction = if byte_at(s, whole_end, 46) {
            whole_end + 1
        } else {
            whole_end
        };
        if fraction <= s.len() {
            lemma_skip_digits(s, fraction);
            let fraction_end = skip_digits(s, fraction);
            let exponent_negative = byte_at(s, fraction_end + 1, 45);
            let signed = exponent_negative || byte_at(s, fraction_end + 1, 43);
            let exponent = if signed {
                fraction_end + 2
            } else {
                fraction_end + 1
            };
            if exponent <= s.len() {
                lemma_skip_digits(s, exponent);
            }
        }
    }
}

/// The number that is read is the double nearest to the number that is
/// written: to its digits, taken as a whole number, times ten to the power
/// that its exponent and the length of its fraction give.
pub proof fn law_number_is_nearest(s: Seq<u8>, pos: int)
    requires
        0 <= pos <= s.len(),
        number_shape(s, pos) is Ok,
    ensures
        read_number(s, pos)->Ok_0.0 == crate::decimal::nearest_double(
            number_shape(s, pos)->Ok_0.0.negative,
            digits_value(number_shape(s, pos)->Ok_0.0.digits(s)),
            number_shape(s, pos)->Ok_0.0.power_of_ten(s),
        ),
{
    let shape = number_shape(s, pos)->Ok_0.0;
    lemma_number_shape(s, pos);
    lemma_skip_digits(s, shape.whole);
    if shape.fraction <= s.len() {
        lemma_skip_digits(s, shape.fraction);
    }
    let digits = shape.digits(s);
    assert(all_digits(digits)) by {
        assert forall|i: int| 0 <= i < digits.len() implies 48 <= #[trigger] digits[i] <= 57 by {
            let whole = s.subrange(shape.whole, shape.whole_end);
            if i < whole.len() {
                assert(digits[i] == s[shape.whole + i]);
                assert(is_digit(s[shape.whole + i]));
            } else {
                assert(digits[i] == s[shape.fraction + (i - whole.len())]);
                assert(is_digit(s[shape.fraction + (i - whole.len())]));
            }
        }
    }
    crate::decimal::lemma_digits_value_bound(digits);
    crate::decimal::law_exponent_range(
        shape.negative,
        digits_value(digits),
        shape.power_of_ten(s),
        digits.len(),
    );
}

} // verus!
