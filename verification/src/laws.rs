//! What holds of the editing operations taken together.

use vstd::prelude::*;
use crate::compare::equal;
use crate::lex::{lemma_skip_blanks, skip_blanks};
use crate::node::{Node, Value};
use crate::parse::{buffer, lemma_raw_free_value, lemma_read_value, parse_answer, read_text};
use crate::print::printed;
use crate::roundtrip::{
    at, lemma_alike_equal, lemma_printable, lemma_printed_begins, lemma_printed_nul_free,
    lemma_printed_reads, numbers_finite, numbers_read,
};

verus! {

/// A node that is taken out of one container and linked into another, or
/// into the same one at another place, holds what it held: linking changes
/// its key and its handle, and nothing of its value.
pub proof fn law_detach_attach_keeps_structure(
    source: Node,
    from: int,
    target: Node,
    to: int,
    key: Option<Seq<u8>>,
    key_is_const: bool,
)
    requires
        source.value.is_container(),
        0 <= from < source.members().len(),
        target.value.is_container(),
        0 <= to <= target.members().len(),
    ensures
        ({
            let detached = source.members()[from];
            let linked = target.linked(to, detached.shaped_for(target, key, key_is_const));
            &&& linked.members()[to].value == detached.value
            &&& linked.members()[to].is_reference == detached.is_reference
            &&& linked.members()[to].next_handle == detached.next_handle
            &&& linked.members().len() == target.members().len() + 1
        }),
{
}

/// Taking a member out of a container leaves the other members as they
/// were, in their order.
pub proof fn law_detach_keeps_the_rest(source: Node, from: int)
    requires
        source.value.is_container(),
        0 <= from < source.members().len(),
    ensures
        source.unlinked(from).members().len() == source.members().len() - 1,
        forall|i: int|
            0 <= i < from ==> #[trigger] source.unlinked(from).members()[i] == source.members()[i],
        forall|i: int|
            from <= i < source.members().len() - 1 ==> #[trigger] source.unlinked(
                from,
            ).members()[i] == source.members()[i + 1],
{
}

/// Every number that is a number reads back from its digits in full.
proof fn lemma_numbers_read(t: Node)
    requires
        numbers_finite(t),
    ensures
        numbers_read(t),
    decreases t,
{
    match t.value {
        Value::Number(bits) => {
            if !crate::double::is_zero(bits) {
                crate::exact::lemma_exact_reads(bits);
            }
        },
        Value::Array(items) => {
            assert forall|i: int| 0 <= i < items.len() implies numbers_read(#[trigger] items[i]) by {
                lemma_numbers_read(items[i]);
            }
        },
        Value::Object(items) => {
            assert forall|i: int| 0 <= i < items.len() implies numbers_read(#[trigger] items[i]) by {
                lemma_numbers_read(items[i]);
            }
        },
        _ => {},
    }
}

/// What is printed parses back to an equal tree: where a text parses to a
/// tree whose numbers are all numbers, the text of the tree, formatted or
/// not, parses under the same limit to a tree that equals it, case
/// sensitively. (A number too great for a double parses to an infinity,
/// which is printed as `0`.)
pub proof fn law_print_parse(text: Seq<u8>, buffer_length: usize, limit: usize, formatted: bool)
    requires
        text.len() <= usize::MAX,
        parse_answer(text, buffer_length, limit) matches Ok((tree, _)) && numbers_finite(tree)
            && printed(tree, formatted, 0).len() <= usize::MAX,
    ensures
        parse_answer(text, buffer_length, limit) matches Ok((tree, _)) && (parse_answer(
            printed(tree, formatted, 0),
            usize::MAX,
            limit,
        ) matches Ok((again, _)) && equal(again, tree, true)),
{
    let tree = parse_answer(text, buffer_length, limit)->Ok_0.0;
    let s = buffer(text, buffer_length);
    lemma_skip_blanks(s, 0);
    lemma_read_value(s, skip_blanks(s, 0), 0, limit as nat);
    lemma_raw_free_value(s, skip_blanks(s, 0), 0, limit as nat);
    lemma_numbers_read(tree);
    lemma_printable(tree);
    let p = printed(tree, formatted, 0);
    lemma_printed_begins(tree, formatted, 0);
    lemma_printed_nul_free(tree, formatted, 0);
    assert(buffer(p, usize::MAX) =~= p);
    assert(skip_blanks(p, 0) == 0);
    assert(at(p, 0, p));
    lemma_printed_reads(tree, formatted, 0, p, 0, 0, limit as nat);
    let again = read_text(p, limit as nat)->Ok_0.0;
    lemma_alike_equal(again, tree);
}

} // verus!
