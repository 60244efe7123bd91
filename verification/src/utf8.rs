//! Texts as UTF-8: what the engine reads from UTF-8 text and writes of
//! UTF-8 text is UTF-8.

use vstd::prelude::*;
use vstd::utf8::{
    encode_scalar, encode_utf8, encode_utf8_valid_utf8, is_char_boundary_iff_is_leading_byte,
    is_scalar, length_of_first_scalar, pop_first_scalar, valid_first_scalar, valid_utf8,
    valid_utf8_concat, valid_utf8_split,
};
use crate::lex::{
    byte_at, hex4, read_escape, read_string, short_escape, skip_blanks, string_from, utf8_of,
};
use crate::compare::{duplicate, lemma_duplicates_upto};
use crate::edit::with_member;
use crate::format::number_text;
use crate::node::{all_textual, textual, Node, Value};
use crate::print::{
    closing_indent, escape_of, escaped, line_end, member_lead, member_tail, printed,
    printed_upto, quoted, quoted_key,
};
use crate::parse::{placed, read_elements, read_members, read_value};

verus! {

/// Every byte is an ASCII character.
pub open spec fn ascii(s: Seq<u8>) -> bool {
    forall|i: int| 0 <= i < s.len() ==> #[trigger] s[i] < 0x80
}

/// The bytes of a code point as they are computed are its UTF-8 encoding.
pub proof fn lemma_utf8_of_is_encoding(cp: u32)
    requires
        is_scalar(cp),
    ensures
        utf8_of(cp) == encode_scalar(cp),
{
    if cp < 0x80 {
        assert((cp & 0x7F) as u8 == cp as u8) by (bit_vector)
            requires
                cp < 0x80,
        ;
    } else if cp < 0x800 {
        assert(0xC0u8 | ((cp >> 6) & 0x1F) as u8 == (0xC0 + cp / 0x40) as u8 && 0x80u8 | (cp
            & 0x3F) as u8 == (0x80 + cp % 0x40) as u8) by (bit_vector)
            requires
                0x80 <= cp < 0x800,
        ;
    } else if cp < 0x1_0000 {
        assert(0xE0u8 | ((cp >> 12) & 0x0F) as u8 == (0xE0 + cp / 0x1000) as u8 && 0x80u8 | ((cp
            >> 6) & 0x3F) as u8 == (0x80 + (cp / 0x40) % 0x40) as u8 && 0x80u8 | (cp & 0x3F) as u8
            == (0x80 + cp % 0x40) as u8) by (bit_vector)
            requires
                0x800 <= cp < 0x1_0000,
        ;
    } else {
        assert(0xF0u8 | ((cp >> 18) & 0x7) as u8 == (0xF0 + (cp / 0x4_0000) % 8) as u8 && 0x80u8
            | ((cp >> 12) & 0x3F) as u8 == (0x80 + (cp / 0x1000) % 0x40) as u8 && 0x80u8 | ((cp
            >> 6) & 0x3F) as u8 == (0x80 + (cp / 0x40) % 0x40) as u8 && 0x80u8 | (cp & 0x3F) as u8
            == (0x80 + cp % 0x40) as u8) by (bit_vector)
            requires
                0x1_0000 <= cp <= 0x10_FFFF,
        ;
    }
    assert(utf8_of(cp) =~= encode_scalar(cp));
}

/// The bytes of a code point are UTF-8.
pub proof fn lemma_utf8_of_valid(cp: u32)
    requires
        is_scalar(cp),
    ensures
        valid_utf8(utf8_of(cp)),
{
    lemma_utf8_of_is_encoding(cp);
    let c = cp as char;
    assert(c as u32 == cp);
    let chars = seq![c];
    assert(chars.drop_first() =~= Seq::<char>::empty());
    assert(chars[0] == c);
    assert(encode_utf8(chars.drop_first()) =~= Seq::<u8>::empty());
    assert(encode_utf8(chars) == encode_scalar(chars[0] as u32) + encode_utf8(chars.drop_first()));
    assert(encode_utf8(chars) =~= encode_scalar(cp));
    encode_utf8_valid_utf8(chars);
}

/// ASCII text is UTF-8.
pub proof fn lemma_ascii_valid(s: Seq<u8>)
    requires
        ascii(s),
    ensures
        valid_utf8(s),
    decreases s.len(),
{
    if s.len() > 0 {
        assert(s[0] < 0x80);
        let rest = pop_first_scalar(s);
        assert(rest =~= s.subrange(1, s.len() as int));
        assert forall|i: int| 0 <= i < rest.len() implies #[trigger] rest[i] < 0x80 by {
            assert(rest[i] == s[i + 1]);
        }
        lemma_ascii_valid(rest);
        assert(vstd::utf8::decode_first_codepoint(s) == (s[0] & 0x7F) as u32);
    }
}

/// UTF-8 text that is cut before an ASCII character is UTF-8 on both
/// sides of the cut, and behind the character.
pub proof fn lemma_split_at_ascii(s: Seq<u8>, i: int)
    requires
        valid_utf8(s),
        0 <= i < s.len(),
        s[i] < 0x80,
    ensures
        valid_utf8(s.subrange(0, i)),
        valid_utf8(s.subrange(i, s.len() as int)),
        valid_utf8(s.subrange(i + 1, s.len() as int)),
{
    is_char_boundary_iff_is_leading_byte(s, i);
    valid_utf8_split(s, i);
    let rest = s.subrange(i, s.len() as int);
    assert(rest[0] == s[i]);
    assert(pop_first_scalar(rest) =~= s.subrange(i + 1, s.len() as int));
}

/// UTF-8 text that begins with ASCII characters is UTF-8 behind them.
pub proof fn lemma_drop_ascii(x: Seq<u8>, b: Seq<u8>)
    requires
        ascii(x),
        valid_utf8(x + b),
    ensures
        valid_utf8(b),
    decreases x.len(),
{
    if x.len() == 0 {
        assert(x + b =~= b);
    } else {
        let whole = x + b;
        assert(whole[0] == x[0]);
        assert(x[0] < 0x80);
        let rest = x.drop_first();
        assert(pop_first_scalar(whole) =~= rest + b);
        assert forall|i: int| 0 <= i < rest.len() implies #[trigger] rest[i] < 0x80 by {
            assert(rest[i] == x[i + 1]);
        }
        lemma_drop_ascii(rest, b);
    }
}

/// In UTF-8 text, ASCII characters can give way to any UTF-8 text.
pub proof fn lemma_replace_ascii(a: Seq<u8>, x: Seq<u8>, y: Seq<u8>, b: Seq<u8>)
    requires
        valid_utf8(a + x + b),
        ascii(x),
        x.len() >= 1,
        valid_utf8(y),
    ensures
        valid_utf8(a + y + b),
        valid_utf8(a),
        valid_utf8(b),
{
    let s = a + x + b;
    assert(s[a.len() as int] == x[0]);
    lemma_split_at_ascii(s, a.len() as int);
    assert(s.subrange(0, a.len() as int) =~= a);
    assert(s.subrange(a.len() as int, s.len() as int) =~= x + b);
    lemma_drop_ascii(x, b);
    valid_utf8_concat(a, y);
    valid_utf8_concat(a + y, b);
}

/// Four hexadecimal digits are ASCII.
proof fn lemma_hex4_ascii(s: Seq<u8>, pos: int)
    requires
        hex4(s, pos) is Some,
    ensures
        s[pos] < 0x80 && s[pos + 1] < 0x80 && s[pos + 2] < 0x80 && s[pos + 3] < 0x80,
        hex4(s, pos)->Some_0 <= 0xFFFF,
{
}

/// An escape is written in ASCII, and what it stands for is UTF-8.
pub proof fn lemma_escape_textual(s: Seq<u8>, pos: int)
    requires
        0 <= pos < s.len(),
        s[pos] == 92,
    ensures
        read_escape(s, pos) matches Ok((bytes, next)) ==> pos < next <= s.len() && valid_utf8(
            bytes,
        ) && ascii(s.subrange(pos, next)),
{
    match read_escape(s, pos) {
        Ok((bytes, next)) => {
            let x = s.subrange(pos, next);
            if short_escape(s[pos + 1]) is Some {
                assert(ascii(bytes));
                lemma_ascii_valid(bytes);
                assert(ascii(x)) by {
                    assert forall|i: int| 0 <= i < x.len() implies #[trigger] x[i] < 0x80 by {
                        assert(x[i] == s[pos + i]);
                    }
                }
            } else {
                lemma_hex4_ascii(s, pos + 2);
                let first = hex4(s, pos + 2)->Some_0;
                if 0xD800 <= first <= 0xDBFF {
                    lemma_hex4_ascii(s, pos + 8);
                    let second = hex4(s, pos + 8)->Some_0;
                    let cp = (0x1_0000 + (first - 0xD800) * 0x400 + (second - 0xDC00)) as u32;
                    assert(0x1_0000 <= cp <= 0x10_FFFF);
                    lemma_utf8_of_valid(cp);
                    assert(ascii(x)) by {
                        assert forall|i: int| 0 <= i < x.len() implies #[trigger] x[i] < 0x80 by {
                            assert(x[i] == s[pos + i]);
                        }
                    }
                } else {
                    lemma_utf8_of_valid(first);
                    assert(ascii(x)) by {
                        assert forall|i: int| 0 <= i < x.len() implies #[trigger] x[i] < 0x80 by {
                            assert(x[i] == s[pos + i]);
                        }
                    }
                }
            }
        },
        Err(e) => {},
    }
}

/// The text `s` is the beginning of the text `full`.
pub open spec fn begins(full: Seq<u8>, s: Seq<u8>) -> bool {
    s.len() <= full.len() && s == full.subrange(0, s.len() as int)
}

/// A string that is read from the beginning of UTF-8 text is UTF-8.
pub proof fn lemma_string_textual(full: Seq<u8>, s: Seq<u8>, pos: int, acc: Seq<u8>)
    requires
        begins(full, s),
        0 <= pos <= s.len(),
        valid_utf8(acc + full.subrange(pos, full.len() as int)),
    ensures
        string_from(s, pos, acc) matches Ok((text, _)) ==> valid_utf8(text),
    decreases s.len() - pos,
{
    let rest = full.subrange(pos, full.len() as int);
    let whole = acc + rest;
    if !(0 <= pos < s.len()) {
    } else {
        assert(s[pos] == full[pos]);
        assert(whole[acc.len() as int] == full[pos]);
        if s[pos] == 34 {
            lemma_split_at_ascii(whole, acc.len() as int);
            assert(whole.subrange(0, acc.len() as int) =~= acc);
        } else if s[pos] == 92 {
            lemma_escape_textual(s, pos);
            match read_escape(s, pos) {
                Ok((bytes, next)) => {
                    let x = full.subrange(pos, next);
                    let behind = full.subrange(next, full.len() as int);
                    assert(x =~= s.subrange(pos, next));
                    assert(whole =~= acc + x + behind);
                    lemma_replace_ascii(acc, x, bytes, behind);
                    lemma_string_textual(full, s, next, acc + bytes);
                },
                Err(e) => {},
            }
        } else {
            assert(acc.push(s[pos]) + full.subrange(pos + 1, full.len() as int) =~= whole);
            lemma_string_textual(full, s, pos + 1, acc.push(s[pos]));
        }
    }
}

/// A string that is read from the beginning of UTF-8 text, from its
/// opening quote on, is UTF-8.
pub proof fn lemma_read_string_textual(full: Seq<u8>, s: Seq<u8>, pos: int)
    requires
        begins(full, s),
        valid_utf8(full),
    ensures
        read_string(s, pos) matches Ok((text, _)) ==> valid_utf8(text),
{
    if byte_at(s, pos, 34) {
        assert(full[pos] == s[pos]);
        lemma_split_at_ascii(full, pos);
        assert(Seq::<u8>::empty() + full.subrange(pos + 1, full.len() as int) =~= full.subrange(
            pos + 1,
            full.len() as int,
        ));
        lemma_string_textual(full, s, pos + 1, Seq::empty());
    }
}

proof fn lemma_textual_push(acc: Seq<Node>, item: Node, key: Option<Seq<u8>>)
    requires
        all_textual(acc),
        textual(item),
        key matches Some(k) ==> valid_utf8(k),
    ensures
        all_textual(acc.push(placed(item, key, acc.len()))),
{
    let items = acc.push(placed(item, key, acc.len()));
    assert forall|i: int| 0 <= i < items.len() implies textual(#[trigger] items[i]) by {
        if i < acc.len() {
            assert(items[i] == acc[i]);
        } else {
            assert(items[i].value == item.value);
        }
    }
}

/// What the parser reads from the beginning of UTF-8 text is textual.
pub proof fn lemma_read_textual(full: Seq<u8>, s: Seq<u8>, pos: int, depth: nat, limit: nat)
    requires
        begins(full, s),
        valid_utf8(full),
    ensures
        read_value(s, pos, depth, limit) matches Ok((node, _)) ==> textual(node),
    decreases s.len() - pos, 0nat,
{
    if !(0 <= pos < s.len()) {
    } else if s[pos] == 34 {
        lemma_read_string_textual(full, s, pos);
    } else if s[pos] == 91 {
        let first = skip_blanks(s, pos + 1);
        if depth >= limit {
        } else if byte_at(s, first, 93) {
        } else if pos < first <= s.len() {
            lemma_elements_textual(full, s, first, depth + 1, limit, Seq::empty());
        }
    } else if s[pos] == 123 {
        let first = skip_blanks(s, pos + 1);
        if depth >= limit {
        } else if byte_at(s, first, 125) {
        } else if pos < first <= s.len() {
            lemma_members_textual(full, s, first, depth + 1, limit, Seq::empty());
        }
    } else {
    }
}

proof fn lemma_elements_textual(
    full: Seq<u8>,
    s: Seq<u8>,
    pos: int,
    depth: nat,
    limit: nat,
    acc: Seq<Node>,
)
    requires
        begins(full, s),
        valid_utf8(full),
        all_textual(acc),
    ensures
        read_elements(s, pos, depth, limit, acc) matches Ok((node, _)) ==> textual(node),
    decreases s.len() - pos, 1nat,
{
    lemma_read_textual(full, s, pos, depth, limit);
    match read_value(s, pos, depth, limit) {
        Err(e) => {},
        Ok((item, end)) => {
            let items = acc.push(placed(item, None, acc.len()));
            lemma_textual_push(acc, item, None);
            let after = skip_blanks(s, end);
            if byte_at(s, after, 93) {
            } else if byte_at(s, after, 44) {
                let next = skip_blanks(s, after + 1);
                if pos < next <= s.len() {
                    lemma_elements_textual(full, s, next, depth, limit, items);
                }
            }
        },
    }
}

proof fn lemma_members_textual(
    full: Seq<u8>,
    s: Seq<u8>,
    pos: int,
    depth: nat,
    limit: nat,
    acc: Seq<Node>,
)
    requires
        begins(full, s),
        valid_utf8(full),
        all_textual(acc),
    ensures
        read_members(s, pos, depth, limit, acc) matches Ok((node, _)) ==> textual(node),
    decreases s.len() - pos, 1nat,
{
    lemma_read_string_textual(full, s, pos);
    match read_string(s, pos) {
        Err(e) => {},
        Ok((key, key_end)) => {
            let colon = skip_blanks(s, key_end);
            let start = skip_blanks(s, colon + 1);
            if byte_at(s, colon, 58) && pos < start <= s.len() {
                lemma_read_textual(full, s, start, depth, limit);
                match read_value(s, start, depth, limit) {
                    Err(e) => {},
                    Ok((item, end)) => {
                        let items = acc.push(placed(item, Some(key), acc.len()));
                        lemma_textual_push(acc, item, Some(key));
                        let after = skip_blanks(s, end);
                        if byte_at(s, after, 125) {
                        } else if byte_at(s, after, 44) {
                            let next = skip_blanks(s, after + 1);
                            if pos < next <= s.len() {
                                lemma_members_textual(full, s, next, depth, limit, items);
                            }
                        }
                    },
                }
            }
        },
    }
}

/// Escaping goes part by part.
pub proof fn lemma_escaped_concat(a: Seq<u8>, b: Seq<u8>)
    ensures
        escaped(a + b) == escaped(a) + escaped(b),
    decreases a.len(),
{
    if a.len() == 0 {
        assert(a + b =~= b);
        assert(escaped(a) + escaped(b) =~= escaped(b));
    } else {
        lemma_escaped_concat(a.drop_first(), b);
        assert((a + b).drop_first() =~= a.drop_first() + b);
        assert((a + b)[0] == a[0]);
        assert(escaped(a + b) =~= escape_of(a[0]) + (escaped(a.drop_first()) + escaped(b)));
    }
}

/// Bytes that are no ASCII characters stay as they are.
proof fn lemma_escaped_high(x: Seq<u8>)
    requires
        forall|i: int| 0 <= i < x.len() ==> #[trigger] x[i] >= 0x80,
    ensures
        escaped(x) == x,
    decreases x.len(),
{
    if x.len() > 0 {
        let rest = x.drop_first();
        assert forall|i: int| 0 <= i < rest.len() implies #[trigger] rest[i] >= 0x80 by {
            assert(rest[i] == x[i + 1]);
        }
        lemma_escaped_high(rest);
        assert(x[0] >= 0x80);
        assert(escaped(x) =~= x);
    }
}

/// UTF-8 text is UTF-8 as it is written inside quotes, and in quotes.
pub proof fn lemma_escaped_valid(text: Seq<u8>)
    requires
        valid_utf8(text),
    ensures
        valid_utf8(escaped(text)),
        valid_utf8(quoted(text)),
    decreases text.len(),
{
    if text.len() > 0 {
        assert(valid_first_scalar(text));
        let len = length_of_first_scalar(text);
        assert(1 <= len <= text.len());
        let head = text.subrange(0, len);
        let rest = pop_first_scalar(text);
        assert(text =~= head + rest);
        lemma_escaped_concat(head, rest);
        lemma_escaped_valid(rest);
        if text[0] < 0x80 {
            assert(head =~= seq![text[0]]);
            assert(head.drop_first() =~= Seq::<u8>::empty());
            assert(escaped(head.drop_first()) =~= Seq::<u8>::empty());
            assert(head[0] == text[0]);
            assert(escaped(head) == escape_of(head[0]) + escaped(head.drop_first()));
            assert(escaped(head) =~= escape_of(text[0]));
            assert(ascii(escape_of(text[0])));
            lemma_ascii_valid(escape_of(text[0]));
            valid_utf8_concat(escaped(head), escaped(rest));
        } else {
            assert forall|i: int| 0 <= i < head.len() implies #[trigger] head[i] >= 0x80 by {
                assert(head[i] == text[i]);
            }
            lemma_escaped_high(head);
            assert(valid_first_scalar(head)) by {
                assert(head[0] == text[0]);
                if len >= 2 {
                    assert(head[1] == text[1]);
                }
                if len >= 3 {
                    assert(head[2] == text[2]);
                }
                if len >= 4 {
                    assert(head[3] == text[3]);
                }
            }
            assert(length_of_first_scalar(head) == len);
            assert(pop_first_scalar(head) =~= Seq::<u8>::empty());
            assert(valid_utf8(Seq::<u8>::empty()));
            assert(valid_utf8(pop_first_scalar(head)));
            assert(valid_utf8(head));
            valid_utf8_concat(head, escaped(rest));
        }
    }
    let quote = seq![34u8];
    assert(ascii(quote));
    lemma_ascii_valid(quote);
    valid_utf8_concat(quote, escaped(text));
    valid_utf8_concat(quote + escaped(text), quote);
}

/// A text that reads as a number, all of it, is ASCII.
proof fn lemma_number_ascii(t: Seq<u8>, bits: u64)
    requires
        crate::format::reads_as(t, bits),
    ensures
        ascii(t),
{
    crate::lex::lemma_number_shape(t, 0);
    let shape = crate::lex::number_shape(t, 0)->Ok_0.0;
    crate::lex::lemma_skip_digits(t, shape.whole);
    if shape.fraction <= t.len() {
        crate::lex::lemma_skip_digits(t, shape.fraction);
    }
    if shape.exponent <= t.len() {
        crate::lex::lemma_skip_digits(t, shape.exponent);
    }
    assert forall|i: int| 0 <= i < t.len() implies #[trigger] t[i] < 0x80 by {
        if i < shape.whole {
        } else if i < shape.whole_end {
            assert(crate::lex::is_digit(t[i]));
        } else if i < shape.fraction {
        } else if i < shape.fraction_end {
            assert(crate::lex::is_digit(t[i]));
        } else if i < shape.exponent {
        } else {
            assert(crate::lex::is_digit(t[i]));
        }
    }
}

/// The text of a number is UTF-8.
pub proof fn lemma_number_text_valid(bits: u64)
    ensures
        valid_utf8(number_text(bits)),
{
    let text = number_text(bits);
    if !crate::double::is_finite(bits) || crate::double::is_zero(bits) {
        assert(ascii(text));
    } else {
        crate::exact::lemma_exact_reads(bits);
        crate::roundtrip::lemma_number_text_reads(bits);
        lemma_number_ascii(text, bits);
    }
    lemma_ascii_valid(text);
}

/// The text of a textual tree is UTF-8.
pub proof fn lemma_printed_valid(t: Node, formatted: bool, depth: nat)
    requires
        textual(t),
    ensures
        valid_utf8(printed(t, formatted, depth)),
    decreases t, 0nat,
{
    let p = printed(t, formatted, depth);
    match t.value {
        Value::Number(bits) => {
            lemma_number_text_valid(bits);
        },
        Value::String(text) => {
            lemma_escaped_valid(text);
        },
        Value::Raw(text) => {},
        Value::Array(items) => {
            if items.len() > 0 {
                lemma_members_valid(items, items.len(), false, formatted, depth + 1);
                lemma_wrap_valid(
                    seq![91u8] + line_end(formatted),
                    printed_upto(items, items.len(), false, formatted, depth + 1),
                    closing_indent(formatted, depth) + seq![93u8],
                );
                assert(p =~= (seq![91u8] + line_end(formatted)) + printed_upto(
                    items,
                    items.len(),
                    false,
                    formatted,
                    depth + 1,
                ) + (closing_indent(formatted, depth) + seq![93u8]));
            } else {
                assert(ascii(p));
                lemma_ascii_valid(p);
            }
        },
        Value::Object(items) => {
            lemma_members_valid(items, items.len(), true, formatted, depth + 1);
            lemma_wrap_valid(
                seq![123u8] + line_end(formatted),
                printed_upto(items, items.len(), true, formatted, depth + 1),
                closing_indent(formatted, depth) + seq![125u8],
            );
            assert(p =~= (seq![123u8] + line_end(formatted)) + printed_upto(
                items,
                items.len(),
                true,
                formatted,
                depth + 1,
            ) + (closing_indent(formatted, depth) + seq![125u8]));
        },
        _ => {
            assert(ascii(p));
            lemma_ascii_valid(p);
        },
    }
}

/// UTF-8 text between ASCII texts is UTF-8.
proof fn lemma_wrap_valid(before: Seq<u8>, text: Seq<u8>, behind: Seq<u8>)
    requires
        ascii(before),
        valid_utf8(text),
        ascii(behind),
    ensures
        valid_utf8(before + text + behind),
{
    lemma_ascii_valid(before);
    lemma_ascii_valid(behind);
    valid_utf8_concat(before, text);
    valid_utf8_concat(before + text, behind);
}

/// The text of the members of a textual container is UTF-8.
proof fn lemma_members_valid(
    items: Seq<Node>,
    n: nat,
    keyed: bool,
    formatted: bool,
    depth: nat,
)
    requires
        n <= items.len(),
        all_textual(items),
    ensures
        valid_utf8(printed_upto(items, n, keyed, formatted, depth)),
    decreases items, n,
{
    if n > 0 {
        lemma_members_valid(items, (n - 1) as nat, keyed, formatted, depth);
        let member = items[n - 1];
        assert(textual(member));
        lemma_printed_valid(member, formatted, depth);
        let lead = member_lead(member, keyed, formatted, depth);
        assert(valid_utf8(lead)) by {
            let tabs = closing_indent(formatted, depth);
            if keyed {
                let key = match member.key {
                    Some(k) => k,
                    None => Seq::<u8>::empty(),
                };
                lemma_escaped_valid(key);
                let colon = seq![58u8] + if formatted {
                    seq![32u8]
                } else {
                    Seq::<u8>::empty()
                };
                lemma_wrap_valid(tabs, quoted_key(member.key), colon);
                assert(lead =~= tabs + quoted_key(member.key) + colon);
            } else {
                assert(lead =~= tabs);
                lemma_ascii_valid(tabs);
            }
        }
        let tail = member_tail(n == items.len(), formatted);
        lemma_ascii_valid(tail);
        let before = printed_upto(items, (n - 1) as nat, keyed, formatted, depth);
        valid_utf8_concat(before, lead);
        valid_utf8_concat(before + lead, printed(member, formatted, depth));
        valid_utf8_concat(before + lead + printed(member, formatted, depth), tail);
    }
}

/// Linking a textual node into a textual container gives a textual
/// container.
pub proof fn lemma_linked_textual(parent: Node, at: int, item: Node)
    requires
        textual(parent),
        textual(item),
        0 <= at <= parent.members().len(),
    ensures
        textual(parent.linked(at, item)),
{
    let old_items = parent.members();
    let new_item = Node { handle: parent.next_handle, ..item };
    let new_items = old_items.insert(at, new_item);
    assert(textual(new_item));
    assert forall|i: int| 0 <= i < new_items.len() implies textual(#[trigger] new_items[i]) by {
        if i < at {
            assert(new_items[i] == old_items[i]);
        } else if i > at {
            assert(new_items[i] == old_items[i - 1]);
        }
    }
}

/// Taking a member out of a textual container leaves a textual container,
/// and the member is textual.
pub proof fn lemma_unlinked_textual(parent: Node, at: int)
    requires
        textual(parent),
        0 <= at < parent.members().len(),
    ensures
        textual(parent.unlinked(at)),
        textual(parent.members()[at]),
{
    let old_items = parent.members();
    let new_items = old_items.remove(at);
    assert forall|i: int| 0 <= i < new_items.len() implies textual(#[trigger] new_items[i]) by {
        if i < at {
            assert(new_items[i] == old_items[i]);
        } else {
            assert(new_items[i] == old_items[i + 1]);
        }
    }
}

/// Putting a textual node in the place of a member of a textual container
/// gives a textual container.
pub proof fn lemma_relinked_textual(parent: Node, at: int, item: Node)
    requires
        textual(parent),
        textual(item),
        0 <= at < parent.members().len(),
    ensures
        textual(parent.relinked(at, item)),
{
    let old_items = parent.members();
    let new_item = Node { handle: parent.next_handle, ..item };
    let new_items = old_items.update(at, new_item);
    assert(textual(new_item));
    assert forall|i: int| 0 <= i < new_items.len() implies textual(#[trigger] new_items[i]) by {
        if i != at {
            assert(new_items[i] == old_items[i]);
        }
    }
}

/// A textual container in which a member was changed to a textual node is
/// textual.
pub proof fn law_with_member_textual(parent: Node, at: int, member: Node)
    requires
        textual(parent),
        textual(member),
        0 <= at < parent.members().len(),
    ensures
        textual(with_member(parent, at, member)),
{
    let old_items = parent.members();
    let new_items = old_items.update(at, member);
    assert forall|i: int| 0 <= i < new_items.len() implies textual(#[trigger] new_items[i]) by {
        if i != at {
            assert(new_items[i] == old_items[i]);
        }
    }
}

/// A copy of a textual tree is textual.
pub proof fn lemma_duplicate_textual(n: Node, recurse: bool)
    requires
        textual(n),
    ensures
        textual(duplicate(n, recurse)),
    decreases n,
{
    let d = duplicate(n, recurse);
    if n.value.is_container() && recurse {
        let items = n.members();
        lemma_duplicates_upto(items, items.len());
        let copies = d.members();
        assert forall|i: int| 0 <= i < copies.len() implies textual(#[trigger] copies[i]) by {
            lemma_duplicate_textual(items[i], true);
        }
    }
}

} // verus!
