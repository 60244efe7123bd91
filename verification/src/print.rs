//! The printer: from a tree to JSON text.

use vstd::prelude::*;
use vstd::std_specs::vec::axiom_vec_index_decreases;
use crate::error::JsonError;
use crate::format::{number_text, number_to_text};
use crate::node::{lemma_nodes_upto, nodes_of, Json, JsonValue, Node, Value};

verus! {

/// The hexadecimal digit, in lower case, of a number below 16.
pub open spec fn hex_digit_of(x: u8) -> u8 {
    if x < 10 {
        (48 + x) as u8
    } else {
        (87 + x) as u8
    }
}

/// How one byte of a text is written inside quotes: the quote and the
/// backslash behind a backslash, the control characters that have a short
/// escape as that, any other byte below 32 as `\u00` and two hexadecimal
/// digits, and every other byte as itself.
pub open spec fn escape_of(b: u8) -> Seq<u8> {
    if b == 34 {
        seq![92u8, 34u8]
    } else if b == 92 {
        seq![92u8, 92u8]
    } else if b == 8 {
        seq![92u8, 98u8]
    } else if b == 12 {
        seq![92u8, 102u8]
    } else if b == 10 {
        seq![92u8, 110u8]
    } else if b == 13 {
        seq![92u8, 114u8]
    } else if b == 9 {
        seq![92u8, 116u8]
    } else if b < 32 {
        seq![92u8, 117u8, 48u8, 48u8, hex_digit_of(b / 16), hex_digit_of(b % 16)]
    } else {
        seq![b]
    }
}

/// A text as it is written inside quotes.
pub open spec fn escaped(text: Seq<u8>) -> Seq<u8>
    decreases text.len(),
{
    if text.len() == 0 {
        Seq::empty()
    } else {
        escape_of(text[0]) + escaped(text.drop_first())
    }
}

/// A text as it is written: in quotes, with what needs it escaped.
pub open spec fn quoted(text: Seq<u8>) -> Seq<u8> {
    seq![34u8] + escaped(text) + seq![34u8]
}

/// The key of a member as it is written; a member without a key is
/// written with an empty one.
pub open spec fn quoted_key(key: Option<Seq<u8>>) -> Seq<u8> {
    match key {
        Some(k) => quoted(k),
        None => quoted(Seq::empty()),
    }
}

/// `depth` tabs.
pub open spec fn indent(depth: nat) -> Seq<u8> {
    Seq::new(depth, |i: int| 9u8)
}

/// The text of a tree whose root is `depth` containers deep. Members are
/// written in their order. Unformatted text has no blank in it, but for
/// what strings hold. In formatted text every member of a container is on a
/// line of its own, behind one tab for each container it is in, a colon and
/// a blank stand between a key and its value, and the closing bracket is on
/// a line of its own; an array without members is `[]`.
pub open spec fn printed(n: Node, formatted: bool, depth: nat) -> Seq<u8>
    decreases n, 0nat,
{
    match n.value {
        Value::Null => seq![110u8, 117u8, 108u8, 108u8],
        Value::Bool(true) => seq![116u8, 114u8, 117u8, 101u8],
        Value::Bool(false) => seq![102u8, 97u8, 108u8, 115u8, 101u8],
        Value::Number(bits) => number_text(bits),
        Value::String(text) => quoted(text),
        Value::Raw(text) => text,
        Value::Array(items) => if items.len() == 0 {
            seq![91u8, 93u8]
        } else {
            seq![91u8] + line_end(formatted) + printed_upto(
                items,
                items.len(),
                false,
                formatted,
                depth + 1,
            ) + closing_indent(formatted, depth) + seq![93u8]
        },
        Value::Object(items) => seq![123u8] + line_end(formatted) + printed_upto(
            items,
            items.len(),
            true,
            formatted,
            depth + 1,
        ) + closing_indent(formatted, depth) + seq![125u8],
    }
}

/// What ends a line in formatted text.
pub open spec fn line_end(formatted: bool) -> Seq<u8> {
    if formatted {
        seq![10u8]
    } else {
        Seq::empty()
    }
}

/// What stands before the closing bracket of a container.
pub open spec fn closing_indent(formatted: bool, depth: nat) -> Seq<u8> {
    if formatted {
        indent(depth)
    } else {
        Seq::empty()
    }
}

/// What stands before a member: its indentation in formatted text, and in
/// an object its key with the colon.
pub open spec fn member_lead(member: Node, keyed: bool, formatted: bool, depth: nat) -> Seq<u8> {
    closing_indent(formatted, depth) + if keyed {
        quoted_key(member.key) + seq![58u8] + if formatted {
            seq![32u8]
        } else {
            Seq::empty()
        }
    } else {
        Seq::empty()
    }
}

/// What stands behind a member: a comma unless it is the last, and the
/// end of the line in formatted text.
pub open spec fn member_tail(last: bool, formatted: bool) -> Seq<u8> {
    (if last {
        Seq::empty()
    } else {
        seq![44u8]
    }) + line_end(formatted)
}

/// The text of the first `n` members of a container, each `depth`
/// containers deep.
pub open spec fn printed_upto(
    items: Seq<Node>,
    n: nat,
    keyed: bool,
    formatted: bool,
    depth: nat,
) -> Seq<u8>
    decreases items, n,
{
    if n == 0 || n > items.len() {
        Seq::empty()
    } else {
        printed_upto(items, (n - 1) as nat, keyed, formatted, depth) + member_lead(
            items[n - 1],
            keyed,
            formatted,
            depth,
        ) + printed(items[n - 1], formatted, depth) + member_tail(n == items.len(), formatted)
    }
}

/// Escaping goes byte by byte.
pub proof fn lemma_escaped_push(text: Seq<u8>, b: u8)
    ensures
        escaped(text.push(b)) == escaped(text) + escape_of(b),
    decreases text.len(),
{
    if text.len() == 0 {
        assert(text.push(b).drop_first() =~= Seq::<u8>::empty());
        assert(escaped(text.push(b)) =~= escape_of(b) + escaped(Seq::<u8>::empty()));
        assert(escaped(text) + escape_of(b) =~= escape_of(b));
    } else {
        lemma_escaped_push(text.drop_first(), b);
        assert(text.push(b).drop_first() =~= text.drop_first().push(b));
        assert(escaped(text.push(b)) =~= escape_of(text[0]) + (escaped(text.drop_first())
            + escape_of(b)));
    }
}

/// Appends the bytes of `s`.
fn push_all(out: &mut Vec<u8>, s: &[u8])
    ensures
        final(out)@ == old(out)@ + s@,
{
    let mut i: usize = 0;
    proof {
        assert(out@ =~= old(out)@ + s@.subrange(0, 0));
    }
    while i < s.len()
        invariant
            i <= s.len(),
            out@ == old(out)@ + s@.subrange(0, i as int),
        decreases s.len() - i,
    {
        out.push(s[i]);
        proof {
            assert(out@ =~= old(out)@ + s@.subrange(0, i as int + 1));
        }
        i += 1;
    }
    proof {
        assert(s@.subrange(0, s.len() as int) =~= s@);
    }
}

/// Appends a byte as it is written inside quotes.
fn push_escape(out: &mut Vec<u8>, b: u8)
    ensures
        final(out)@ == old(out)@ + escape_of(b),
{
    if b == 34 || b == 92 {
        out.push(92);
        out.push(b);
    } else if b == 8 {
        out.push(92);
        out.push(98);
    } else if b == 12 {
        out.push(92);
        out.push(102);
    } else if b == 10 {
        out.push(92);
        out.push(110);
    } else if b == 13 {
        out.push(92);
        out.push(114);
    } else if b == 9 {
        out.push(92);
        out.push(116);
    } else if b < 32 {
        let high: u8 = b / 16;
        let low: u8 = b % 16;
        out.push(92);
        out.push(117);
        out.push(48);
        out.push(48);
        out.push(if high < 10 {
            48 + high
        } else {
            87 + high
        });
        out.push(if low < 10 {
            48 + low
        } else {
            87 + low
        });
    } else {
        out.push(b);
    }
    proof {
        assert(out@ =~= old(out)@ + escape_of(b));
    }
}

/// Appends a text as it is written: in quotes and escaped.
fn push_quoted(out: &mut Vec<u8>, text: &[u8])
    ensures
        final(out)@ == old(out)@ + quoted(text@),
{
    out.push(34);
    let mut i: usize = 0;
    proof {
        assert(text@.subrange(0, 0) =~= Seq::<u8>::empty());
        assert(out@ =~= old(out)@ + seq![34u8] + escaped(text@.subrange(0, 0)));
    }
    while i < text.len()
        invariant
            i <= text.len(),
            out@ == old(out)@ + seq![34u8] + escaped(text@.subrange(0, i as int)),
        decreases text.len() - i,
    {
        push_escape(out, text[i]);
        proof {
            lemma_escaped_push(text@.subrange(0, i as int), text@[i as int]);
            assert(text@.subrange(0, i as int + 1) =~= text@.subrange(0, i as int).push(
                text@[i as int],
            ));
            assert(out@ =~= old(out)@ + seq![34u8] + escaped(text@.subrange(0, i as int + 1)));
        }
        i += 1;
    }
    out.push(34);
    proof {
        assert(text@.subrange(0, text.len() as int) =~= text@);
        assert(out@ =~= old(out)@ + quoted(text@));
    }
}

/// Appends the tabs.
fn push_indent(out: &mut Vec<u8>, tabs: &Vec<u8>, formatted: bool, Ghost(depth): Ghost<nat>)
    requires
        tabs@ == indent(depth),
    ensures
        final(out)@ == old(out)@ + closing_indent(formatted, depth),
{
    if formatted {
        push_all(out, tabs.as_slice());
    } else {
        proof {
            assert(out@ =~= old(out)@ + Seq::<u8>::empty());
        }
    }
}

/// Appends the end of a line in formatted text.
fn push_line_end(out: &mut Vec<u8>, formatted: bool)
    ensures
        final(out)@ == old(out)@ + line_end(formatted),
{
    if formatted {
        out.push(10);
    }
    proof {
        assert(out@ =~= old(out)@ + line_end(formatted));
    }
}

/// Appends a byte.
fn push_byte(out: &mut Vec<u8>, b: u8)
    ensures
        final(out)@ == old(out)@ + seq![b],
{
    out.push(b);
    proof {
        assert(out@ =~= old(out)@ + seq![b]);
    }
}

/// Appends the text of a tree whose root is `depth` containers deep;
/// `tabs` holds as many tabs.
fn print_into(
    out: &mut Vec<u8>,
    item: &Json,
    formatted: bool,
    tabs: &mut Vec<u8>,
    Ghost(depth): Ghost<nat>,
)
    requires
        old(tabs)@ == indent(depth),
    ensures
        final(out)@ == old(out)@ + printed(item@, formatted, depth),
        final(tabs)@ == old(tabs)@,
    decreases item, 0nat,
{
    match &item.value {
        JsonValue::Null => {
            push_all(out, &[110u8, 117u8, 108u8, 108u8]);
        },
        JsonValue::Bool(b) => {
            if *b {
                push_all(out, &[116u8, 114u8, 117u8, 101u8]);
            } else {
                push_all(out, &[102u8, 97u8, 108u8, 115u8, 101u8]);
            }
        },
        JsonValue::Number(bits) => {
            let text = number_to_text(*bits);
            push_all(out, text.as_slice());
        },
        JsonValue::String(text) => {
            push_quoted(out, text.as_slice());
        },
        JsonValue::Raw(text) => {
            push_all(out, text.as_slice());
        },
        JsonValue::Array(items) => {
            proof {
                lemma_nodes_upto(*items, items.len() as nat);
            }
            if items.len() == 0 {
                push_all(out, &[91u8, 93u8]);
            } else {
                push_byte(out, 91);
                push_line_end(out, formatted);
                print_members(out, items, false, formatted, tabs, Ghost(depth));
                push_indent(out, tabs, formatted, Ghost(depth));
                push_byte(out, 93);
                proof {
                    assert(out@ =~= old(out)@ + printed(item@, formatted, depth));
                }
            }
        },
        JsonValue::Object(items) => {
            proof {
                lemma_nodes_upto(*items, items.len() as nat);
            }
            push_byte(out, 123);
            push_line_end(out, formatted);
            print_members(out, items, true, formatted, tabs, Ghost(depth));
            push_indent(out, tabs, formatted, Ghost(depth));
            push_byte(out, 125);
            proof {
                assert(out@ =~= old(out)@ + printed(item@, formatted, depth));
            }
        },
    }
}

/// Putting texts end to end does not depend on the grouping.
proof fn lemma_append_four(a: Seq<u8>, b: Seq<u8>, c: Seq<u8>, d: Seq<u8>, e: Seq<u8>)
    ensures
        a + b + c + d + e == a + (b + c + d + e),
{
    assert(a + b + c + d + e =~= a + (b + c + d + e));
}

/// Appends what stands before a member.
fn print_lead(
    out: &mut Vec<u8>,
    member: &Json,
    keyed: bool,
    formatted: bool,
    tabs: &Vec<u8>,
    Ghost(depth): Ghost<nat>,
)
    requires
        tabs@ == indent(depth),
    ensures
        final(out)@ == old(out)@ + member_lead(member@, keyed, formatted, depth),
{
    push_indent(out, tabs, formatted, Ghost(depth));
    let ghost indented = out@;
    if keyed {
        match &member.key {
            Some(k) => {
                push_quoted(out, k.as_slice());
            },
            None => {
                push_quoted(out, &[]);
            },
        }
        push_byte(out, 58);
        if formatted {
            push_byte(out, 32);
            proof {
                assert(out@ =~= indented + (quoted_key(member@.key) + seq![58u8] + seq![32u8]));
            }
        } else {
            proof {
                assert(out@ =~= indented + (quoted_key(member@.key) + seq![58u8] + Seq::<
                    u8,
                >::empty()));
            }
        }
    } else {
        proof {
            assert(out@ =~= indented + Seq::<u8>::empty());
        }
    }
}

/// Appends what stands behind a member.
fn print_tail(out: &mut Vec<u8>, last: bool, formatted: bool)
    ensures
        final(out)@ == old(out)@ + member_tail(last, formatted),
{
    let ghost before = out@;
    if !last {
        push_byte(out, 44);
    }
    push_line_end(out, formatted);
    proof {
        assert(out@ =~= before + member_tail(last, formatted));
    }
}

/// Appends the text of the members of a container that is `depth`
/// containers deep; `tabs` holds as many tabs.
fn print_members(
    out: &mut Vec<u8>,
    items: &Vec<Json>,
    keyed: bool,
    formatted: bool,
    tabs: &mut Vec<u8>,
    Ghost(depth): Ghost<nat>,
)
    requires
        old(tabs)@ == indent(depth),
    ensures
        final(out)@ == old(out)@ + printed_upto(
            nodes_of(*items),
            items.len() as nat,
            keyed,
            formatted,
            depth + 1,
        ),
        final(tabs)@ == old(tabs)@,
    decreases items, 1nat,
{
    let n = items.len();
    let mut i: usize = 0;
    tabs.push(9);
    proof {
        assert(tabs@ =~= indent(depth + 1));
        lemma_nodes_upto(*items, items.len() as nat);
        assert(out@ =~= old(out)@ + printed_upto(nodes_of(*items), 0, keyed, formatted, depth + 1));
    }
    while i < n
        invariant
            i <= n,
            n == items.len(),
            nodes_of(*items).len() == n,
            forall|k: int| 0 <= k < n ==> (#[trigger] nodes_of(*items)[k]) == items[k]@,
            tabs@ == indent(depth + 1),
            out@ == old(out)@ + printed_upto(nodes_of(*items), i as nat, keyed, formatted, depth + 1),
        decreases n - i,
    {
        let ghost before = out@;
        let member = &items[i];
        proof {
            axiom_vec_index_decreases(*items, i as int);
            assert(nodes_of(*items)[i as int] == member@);
        }
        print_lead(out, member, keyed, formatted, tabs, Ghost(depth + 1));
        print_into(out, member, formatted, tabs, Ghost(depth + 1));
        print_tail(out, i + 1 == n, formatted);
        proof {
            let nodes = nodes_of(*items);
            let so_far = printed_upto(nodes, i as nat, keyed, formatted, depth + 1);
            let lead = member_lead(member@, keyed, formatted, depth + 1);
            let body = printed(member@, formatted, depth + 1);
            let tail = member_tail(i + 1 == n, formatted);
            assert(printed_upto(nodes, (i + 1) as nat, keyed, formatted, depth + 1) == so_far + lead
                + body + tail);
            lemma_append_four(old(out)@, so_far, lead, body, tail);
        }
        i += 1;
    }
    tabs.pop();
    proof {
        assert(tabs@ =~= indent(depth));
    }
}

/// The text of a tree, as bytes.
pub fn print_bytes(item: &Json, formatted: bool) -> (r: Vec<u8>)
    ensures
        r@ == printed(item@, formatted, 0),
{
    let mut out: Vec<u8> = Vec::new();
    let mut tabs: Vec<u8> = Vec::new();
    proof {
        assert(tabs@ =~= indent(0));
    }
    print_into(&mut out, item, formatted, &mut tabs, Ghost(0));
    proof {
        assert(Seq::<u8>::empty() + printed(item@, formatted, 0) =~= printed(item@, formatted, 0));
    }
    out
}

/// The text of a tree, as bytes, written into a buffer that has room for
/// `prebuffer` bytes to begin with; the text is the same whatever the room.
pub fn print_bytes_buffered(item: &Json, prebuffer: usize, formatted: bool) -> (r: Vec<u8>)
    ensures
        r@ == printed(item@, formatted, 0),
{
    let mut out: Vec<u8> = Vec::with_capacity(prebuffer);
    let mut tabs: Vec<u8> = Vec::new();
    proof {
        assert(tabs@ =~= indent(0));
    }
    print_into(&mut out, item, formatted, &mut tabs, Ghost(0));
    proof {
        assert(Seq::<u8>::empty() + printed(item@, formatted, 0) =~= printed(item@, formatted, 0));
    }
    out
}

/// A text and a zero byte fit into the first `length` bytes of a buffer of
/// `size` bytes.
pub open spec fn fits(text: Seq<u8>, length: i32, size: nat) -> bool {
    0 <= length <= size && text.len() + 1 <= length
}

/// A buffer into which a text was written: the text, a zero byte, and
/// behind them what the buffer held before.
pub open spec fn written(before: Seq<u8>, text: Seq<u8>) -> Seq<u8> {
    text + seq![0u8] + before.subrange(text.len() as int + 1, before.len() as int)
}

/// Writes the text of a tree, and a zero byte behind it, into the first
/// `length` bytes of the caller's buffer, which keeps its size. Where they
/// do not fit, nothing is written.
pub fn print_bytes_preallocated(item: &Json, buffer: &mut Vec<u8>, length: i32, formatted: bool) -> (r:
    Result<(), JsonError>)
    ensures
        fits(printed(item@, formatted, 0), length, old(buffer)@.len()) ==> r is Ok && final(buffer)@
            == written(old(buffer)@, printed(item@, formatted, 0)),
        !fits(printed(item@, formatted, 0), length, old(buffer)@.len()) ==> r == Err::<
            (),
            JsonError,
        >(JsonError::BufferTooSmall) && final(buffer)@ == old(buffer)@,
{
    if length < 0 || length as usize > buffer.len() {
        return Err(JsonError::BufferTooSmall);
    }
    let text = print_bytes(item, formatted);
    if text.len() >= length as usize {
        return Err(JsonError::BufferTooSmall);
    }
    let n = text.len();
    let mut i: usize = 0;
    while i < n
        invariant
            i <= n,
            n == text.len(),
            n < buffer.len(),
            buffer.len() == old(buffer).len(),
            forall|k: int| 0 <= k < i ==> buffer[k] == text[k],
            forall|k: int| i <= k < buffer.len() ==> buffer[k] == old(buffer)[k],
        decreases n - i,
    {
        buffer.set(i, text[i]);
        i += 1;
    }
    buffer.set(n, 0);
    proof {
        assert(buffer@ =~= written(old(buffer)@, text@));
    }
    Ok(())
}

} // verus!
