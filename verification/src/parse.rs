//! The parser: from JSON text to a tree.

use vstd::prelude::*;
use vstd::slice::slice_subrange;
use vstd::utf8::encode_utf8;
use crate::error::JsonError;
use crate::lex::{
    byte_at, holds, holds_word, lemma_skip_blanks, pass_blanks, read_as, read_number,
    read_string, refuse, scan_number, scan_string, skip_blanks, word_false, word_null, word_true,
    Read,
};
use crate::node::{lemma_nodes_upto, nodes_of, Json, JsonValue, Node, Value};
use crate::text::{bytes_of, find_nul, nul_free};

verus! {

/// How deep containers may nest in a text that is parsed without a limit
/// of the caller's.
pub const CJSON_NESTING_LIMIT: usize = 1000;

/// An array as the parser makes it: the members have the handles 0, 1, 2
/// and so on.
pub open spec fn array_of(items: Seq<Node>) -> Node {
    Node { next_handle: items.len() as u64, ..Node::fresh(Value::Array(items)) }
}

/// An object as the parser makes it.
pub open spec fn object_of(items: Seq<Node>) -> Node {
    Node { next_handle: items.len() as u64, ..Node::fresh(Value::Object(items)) }
}

/// A member as the parser links it in behind `count` others.
pub open spec fn placed(item: Node, key: Option<Seq<u8>>, count: nat) -> Node {
    Node { key, key_is_const: false, handle: count as u64, ..item }
}

/// The text nests too deep at `at`.
pub open spec fn too_deep<T>(at: int) -> Read<T> {
    Err(JsonError::NestingLimitExceeded(at as usize))
}

/// Reads the value that begins at `pos`, inside `depth` containers: a
/// string, a number, one of the three literals, or an array or an object
/// with its members. A container inside `limit` containers is refused as
/// nesting too deep.
pub open spec fn read_value(s: Seq<u8>, pos: int, depth: nat, limit: nat) -> Read<Node>
    decreases s.len() - pos, 0nat,
{
    if !(0 <= pos < s.len()) {
        refuse(pos)
    } else if s[pos] == 34 {
        match read_string(s, pos) {
            Ok((text, end)) => Ok((Node::fresh(Value::String(text)), end)),
            Err(e) => Err(e),
        }
    } else if s[pos] == 45 || (48 <= s[pos] <= 57) {
        match read_number(s, pos) {
            Ok((bits, end)) => Ok((Node::fresh(Value::Number(bits)), end)),
            Err(e) => Err(e),
        }
    } else if s[pos] == 91 {
        let first = skip_blanks(s, pos + 1);
        if depth >= limit {
            too_deep(pos)
        } else if byte_at(s, first, 93) {
            Ok((array_of(Seq::empty()), first + 1))
        } else if pos < first <= s.len() {
            read_elements(s, first, depth + 1, limit, Seq::empty())
        } else {
            refuse(pos)
        }
    } else if s[pos] == 123 {
        let first = skip_blanks(s, pos + 1);
        if depth >= limit {
            too_deep(pos)
        } else if byte_at(s, first, 125) {
            Ok((object_of(Seq::empty()), first + 1))
        } else if pos < first <= s.len() {
            read_members(s, first, depth + 1, limit, Seq::empty())
        } else {
            refuse(pos)
        }
    } else if holds(s, pos, word_null()) {
        Ok((Node::fresh(Value::Null), pos + 4))
    } else if holds(s, pos, word_true()) {
        Ok((Node::fresh(Value::Bool(true)), pos + 4))
    } else if holds(s, pos, word_false()) {
        Ok((Node::fresh(Value::Bool(false)), pos + 5))
    } else {
        refuse(pos)
    }
}

/// Reads the rest of an array from the member at `pos` on, behind the
/// members `acc`: members parted by commas, and the closing bracket.
pub open spec fn read_elements(s: Seq<u8>, pos: int, depth: nat, limit: nat, acc: Seq<Node>) -> Read<
    Node,
>
    decreases s.len() - pos, 1nat,
{
    match read_value(s, pos, depth, limit) {
        Err(e) => Err(e),
        Ok((item, end)) => {
            let items = acc.push(placed(item, None, acc.len()));
            let after = skip_blanks(s, end);
            if byte_at(s, after, 93) {
                Ok((array_of(items), after + 1))
            } else if byte_at(s, after, 44) {
                let next = skip_blanks(s, after + 1);
                if pos < next <= s.len() {
                    read_elements(s, next, depth, limit, items)
                } else {
                    refuse(after)
                }
            } else {
                refuse(after)
            }
        },
    }
}

/// Reads the rest of an object from the key at `pos` on, behind the
/// members `acc`: members parted by commas, each a string, a colon and a
/// value, and the closing brace.
pub open spec fn read_members(s: Seq<u8>, pos: int, depth: nat, limit: nat, acc: Seq<Node>) -> Read<
    Node,
>
    decreases s.len() - pos, 1nat,
{
    match read_string(s, pos) {
        Err(e) => Err(e),
        Ok((key, key_end)) => {
            let colon = skip_blanks(s, key_end);
            let start = skip_blanks(s, colon + 1);
            if !byte_at(s, colon, 58) {
                refuse(colon)
            } else if !(pos < start <= s.len()) {
                refuse(colon)
            } else {
                match read_value(s, start, depth, limit) {
                    Err(e) => Err(e),
                    Ok((item, end)) => {
                        let items = acc.push(placed(item, Some(key), acc.len()));
                        let after = skip_blanks(s, end);
                        if byte_at(s, after, 125) {
                            Ok((object_of(items), after + 1))
                        } else if byte_at(s, after, 44) {
                            let next = skip_blanks(s, after + 1);
                            if pos < next <= s.len() {
                                read_members(s, next, depth, limit, items)
                            } else {
                                refuse(after)
                            }
                        } else {
                            refuse(after)
                        }
                    },
                }
            }
        },
    }
}

/// Reads the text: blanks, then one value. What follows the value is not
/// looked at.
pub open spec fn read_text(s: Seq<u8>, limit: nat) -> Read<Node> {
    read_value(s, skip_blanks(s, 0), 0, limit)
}

/// The view of what was read.
pub open spec fn node_view() -> spec_fn(Json) -> Node {
    |j: Json| j@
}

/// Reads the value that begins at `pos`.
fn parse_value(s: &[u8], pos: usize, depth: usize, limit: usize) -> (r: Result<
    (Json, usize),
    JsonError,
>)
    requires
        pos <= s.len(),
    ensures
        read_as(r, node_view(), read_value(s@, pos as int, depth as nat, limit as nat)),
        r matches Ok((_, end)) ==> pos < end <= s.len(),
    decreases s.len() - pos, 0nat,
{
    if pos >= s.len() {
        return Err(JsonError::ParseError(pos));
    }
    let b: u8 = s[pos];
    if b == 34 {
        match scan_string(s, pos) {
            Ok((text, end)) => Ok((Json::new(JsonValue::String(text)), end)),
            Err(e) => Err(e),
        }
    } else if b == 45 || (48 <= b && b <= 57) {
        match scan_number(s, pos) {
            Ok((bits, end)) => Ok((Json::new(JsonValue::Number(bits)), end)),
            Err(e) => Err(e),
        }
    } else if b == 91 {
        let first = pass_blanks(s, pos + 1);
        if depth >= limit {
            Err(JsonError::NestingLimitExceeded(pos))
        } else if first < s.len() && s[first] == 93 {
            let node = Json::new(JsonValue::Array(Vec::new()));
            proof {
                assert(node@.members() =~= Seq::empty());
            }
            Ok((node, first + 1))
        } else {
            parse_elements(s, first, depth + 1, limit)
        }
    } else if b == 123 {
        let first = pass_blanks(s, pos + 1);
        if depth >= limit {
            Err(JsonError::NestingLimitExceeded(pos))
        } else if first < s.len() && s[first] == 125 {
            let node = Json::new(JsonValue::Object(Vec::new()));
            proof {
                assert(node@.members() =~= Seq::empty());
            }
            Ok((node, first + 1))
        } else {
            parse_members(s, first, depth + 1, limit)
        }
    } else if holds_word(s, pos, &[110u8, 117u8, 108u8, 108u8]) {
        Ok((Json::new(JsonValue::Null), pos + 4))
    } else if holds_word(s, pos, &[116u8, 114u8, 117u8, 101u8]) {
        Ok((Json::new(JsonValue::Bool(true)), pos + 4))
    } else if holds_word(s, pos, &[102u8, 97u8, 108u8, 115u8, 101u8]) {
        Ok((Json::new(JsonValue::Bool(false)), pos + 5))
    } else {
        Err(JsonError::ParseError(pos))
    }
}

/// Reads the members of an array from the first one, at `pos`, to the
/// closing bracket.
fn parse_elements(s: &[u8], pos: usize, depth: usize, limit: usize) -> (r: Result<
    (Json, usize),
    JsonError,
>)
    requires
        pos <= s.len(),
    ensures
        read_as(
            r,
            node_view(),
            read_elements(s@, pos as int, depth as nat, limit as nat, Seq::empty()),
        ),
        r matches Ok((_, end)) ==> pos < end <= s.len(),
    decreases s.len() - pos, 1nat,
{
    let mut items: Vec<Json> = Vec::new();
    let mut cur: usize = pos;
    proof {
        assert(nodes_of(items) =~= Seq::empty());
    }
    loop
        invariant
            pos <= cur <= s.len(),
            read_elements(s@, pos as int, depth as nat, limit as nat, Seq::empty())
                == read_elements(s@, cur as int, depth as nat, limit as nat, nodes_of(items)),
        decreases s.len() - cur,
    {
        match parse_value(s, cur, depth, limit) {
            Err(e) => {
                return Err(e);
            },
            Ok((item, end)) => {
                let ghost before = nodes_of(items);
                let ghost read = item@;
                let mut item = item;
                item.key = None;
                item.key_is_const = false;
                item.handle = items.len() as u64;
                proof {
                    lemma_nodes_upto(items, items.len() as nat);
                }
                items.push(item);
                proof {
                    lemma_nodes_upto(items, items.len() as nat);
                    assert(nodes_of(items) =~= before.push(placed(read, None, before.len())));
                }
                let after = pass_blanks(s, end);
                if after < s.len() && s[after] == 93 {
                    let count = items.len();
                    let mut node = Json::new(JsonValue::Array(items));
                    node.next_handle = count as u64;
                    return Ok((node, after + 1));
                } else if after < s.len() && s[after] == 44 {
                    cur = pass_blanks(s, after + 1);
                } else {
                    return Err(JsonError::ParseError(after));
                }
            },
        }
    }
}

/// Reads the members of an object from the first key, at `pos`, to the
/// closing brace.
fn parse_members(s: &[u8], pos: usize, depth: usize, limit: usize) -> (r: Result<
    (Json, usize),
    JsonError,
>)
    requires
        pos <= s.len(),
    ensures
        read_as(
            r,
            node_view(),
            read_members(s@, pos as int, depth as nat, limit as nat, Seq::empty()),
        ),
        r matches Ok((_, end)) ==> pos < end <= s.len(),
    decreases s.len() - pos, 1nat,
{
    let mut items: Vec<Json> = Vec::new();
    let mut cur: usize = pos;
    proof {
        assert(nodes_of(items) =~= Seq::empty());
    }
    loop
        invariant
            pos <= cur <= s.len(),
            read_members(s@, pos as int, depth as nat, limit as nat, Seq::empty())
                == read_members(s@, cur as int, depth as nat, limit as nat, nodes_of(items)),
        decreases s.len() - cur,
    {
        let (key, key_end) = match scan_string(s, cur) {
            Ok(found) => found,
            Err(e) => {
                return Err(e);
            },
        };
        let colon = pass_blanks(s, key_end);
        if !(colon < s.len() && s[colon] == 58) {
            return Err(JsonError::ParseError(colon));
        }
        let start = pass_blanks(s, colon + 1);
        match parse_value(s, start, depth, limit) {
            Err(e) => {
                return Err(e);
            },
            Ok((item, end)) => {
                let ghost before = nodes_of(items);
                let ghost read = item@;
                let mut item = item;
                item.key = Some(key);
                item.key_is_const = false;
                item.handle = items.len() as u64;
                proof {
                    lemma_nodes_upto(items, items.len() as nat);
                }
                items.push(item);
                proof {
                    lemma_nodes_upto(items, items.len() as nat);
                    assert(nodes_of(items) =~= before.push(
                        placed(read, Some(key@), before.len()),
                    ));
                }
                let after = pass_blanks(s, end);
                if after < s.len() && s[after] == 125 {
                    let count = items.len();
                    let mut node = Json::new(JsonValue::Object(items));
                    node.next_handle = count as u64;
                    return Ok((node, after + 1));
                } else if after < s.len() && s[after] == 44 {
                    cur = pass_blanks(s, after + 1);
                } else {
                    return Err(JsonError::ParseError(after));
                }
            },
        }
    }
}

/// The members are as the parser links them in: well formed, with or
/// without keys as `keyed` says, under the handles 0, 1, 2 and so on, and
/// none of them deeper than `room` levels.
pub open spec fn placed_well(items: Seq<Node>, keyed: bool, room: int) -> bool {
    forall|i: int|
        0 <= i < items.len() ==> {
            &&& (#[trigger] items[i]).wf()
            &&& items[i].key is Some == keyed
            &&& items[i].handle == i
            &&& items[i].depth() <= room
        }
}

/// The greatest depth among nodes that are each at most `room` deep is at
/// most `room`.
pub proof fn lemma_deepest(items: Seq<Node>, room: int)
    requires
        room >= 0,
        forall|i: int| 0 <= i < items.len() ==> (#[trigger] items[i]).depth() <= room,
    ensures
        crate::node::deepest(items) <= room,
    decreases items.len(),
{
    if items.len() > 0 {
        let rest = items.drop_first();
        assert forall|i: int| 0 <= i < rest.len() implies (#[trigger] rest[i]).depth() <= room by {
            assert(rest[i] == items[i + 1]);
        }
        lemma_deepest(rest, room);
    }
}

/// No node is deeper than the deepest.
pub proof fn lemma_deepest_bounds(items: Seq<Node>)
    ensures
        forall|i: int| 0 <= i < items.len() ==> (#[trigger] items[i]).depth() <= crate::node::deepest(
            items,
        ),
    decreases items.len(),
{
    if items.len() > 0 {
        let rest = items.drop_first();
        lemma_deepest_bounds(rest);
        assert forall|i: int| 0 <= i < items.len() implies (#[trigger] items[i]).depth()
            <= crate::node::deepest(items) by {
            if i > 0 {
                assert(rest[i - 1] == items[i]);
            }
        }
    }
}

/// A container that the parser made of members placed well is well formed
/// and one level deeper than its members.
pub proof fn lemma_container_made(items: Seq<Node>, keyed: bool, room: int)
    requires
        placed_well(items, keyed, room),
        room >= 0,
        items.len() < 0x1_0000_0000_0000_0000,
    ensures
        keyed ==> object_of(items).wf() && object_of(items).depth() <= room + 1,
        !keyed ==> array_of(items).wf() && array_of(items).depth() <= room + 1,
{
    lemma_deepest(items, room);
    assert(crate::node::distinct_handles(items, items.len() as u64));
}

/// What the parser reads from text without a zero byte: a value is a
/// well-formed tree without a key, it nests at most as deep as the limit
/// leaves room, and it ends within the text, behind where it begins. A
/// refusal is a parse error or tells that the text nests too deep.
pub proof fn lemma_read_value(s: Seq<u8>, pos: int, depth: nat, limit: nat)
    requires
        nul_free(s),
        0 <= pos,
        depth <= limit,
        s.len() < 0x1_0000_0000_0000_0000,
    ensures
        read_value(s, pos, depth, limit) matches Ok((node, end)) ==> {
            &&& node.wf()
            &&& node.key is None
            &&& node.depth() + depth <= limit
            &&& pos < end <= s.len()
        },
        read_value(s, pos, depth, limit) matches Err(e) ==> e is ParseError
            || e is NestingLimitExceeded,
    decreases s.len() - pos, 0nat,
{
    if !(0 <= pos < s.len()) {
    } else if s[pos] == 34 {
        crate::lex::lemma_string_from(s, pos + 1, Seq::empty());
    } else if s[pos] == 45 || (48 <= s[pos] <= 57) {
        crate::lex::lemma_number_shape(s, pos);
    } else if s[pos] == 91 {
        let first = skip_blanks(s, pos + 1);
        lemma_skip_blanks(s, pos + 1);
        if depth >= limit {
        } else if byte_at(s, first, 93) {
            lemma_container_made(Seq::empty(), false, 0);
        } else {
            lemma_read_elements(s, first, depth + 1, limit, Seq::empty());
        }
    } else if s[pos] == 123 {
        let first = skip_blanks(s, pos + 1);
        lemma_skip_blanks(s, pos + 1);
        if depth >= limit {
        } else if byte_at(s, first, 125) {
            lemma_container_made(Seq::empty(), true, 0);
        } else {
            lemma_read_members(s, first, depth + 1, limit, Seq::empty());
        }
    } else {
    }
}

/// What the parser reads of an array, behind members placed well.
pub proof fn lemma_read_elements(s: Seq<u8>, pos: int, depth: nat, limit: nat, acc: Seq<Node>)
    requires
        nul_free(s),
        0 <= pos,
        1 <= depth <= limit,
        s.len() < 0x1_0000_0000_0000_0000,
        placed_well(acc, false, limit - depth),
        acc.len() <= pos,
    ensures
        read_elements(s, pos, depth, limit, acc) matches Ok((node, end)) ==> {
            &&& node.wf()
            &&& node.key is None
            &&& node.depth() + depth <= limit + 1
            &&& pos < end <= s.len()
        },
        read_elements(s, pos, depth, limit, acc) matches Err(e) ==> e is ParseError
            || e is NestingLimitExceeded,
    decreases s.len() - pos, 1nat,
{
    lemma_read_value(s, pos, depth, limit);
    match read_value(s, pos, depth, limit) {
        Err(e) => {},
        Ok((item, end)) => {
            let items = acc.push(placed(item, None, acc.len()));
            let after = skip_blanks(s, end);
            lemma_skip_blanks(s, end);
            assert(placed_well(items, false, limit - depth)) by {
                assert forall|i: int| 0 <= i < items.len() implies {
                    &&& (#[trigger] items[i]).wf()
                    &&& items[i].key is Some == false
                    &&& items[i].handle == i
                    &&& items[i].depth() <= limit - depth
                } by {
                    if i < acc.len() {
                        assert(items[i] == acc[i]);
                    } else {
                        assert(items[i].value == item.value);
                        assert(items[i].depth() == item.depth());
                    }
                }
            }
            if byte_at(s, after, 93) {
                lemma_container_made(items, false, limit - depth);
            } else if byte_at(s, after, 44) {
                let next = skip_blanks(s, after + 1);
                lemma_skip_blanks(s, after + 1);
                lemma_read_elements(s, next, depth, limit, items);
            }
        },
    }
}

/// What the parser reads of an object, behind members placed well.
pub proof fn lemma_read_members(s: Seq<u8>, pos: int, depth: nat, limit: nat, acc: Seq<Node>)
    requires
        nul_free(s),
        0 <= pos,
        1 <= depth <= limit,
        s.len() < 0x1_0000_0000_0000_0000,
        placed_well(acc, true, limit - depth),
        acc.len() <= pos,
    ensures
        read_members(s, pos, depth, limit, acc) matches Ok((node, end)) ==> {
            &&& node.wf()
            &&& node.key is None
            &&& node.depth() + depth <= limit + 1
            &&& pos < end <= s.len()
        },
        read_members(s, pos, depth, limit, acc) matches Err(e) ==> e is ParseError
            || e is NestingLimitExceeded,
    decreases s.len() - pos, 1nat,
{
    if byte_at(s, pos, 34) {
        crate::lex::lemma_string_from(s, pos + 1, Seq::empty());
    }
    match read_string(s, pos) {
        Err(e) => {},
        Ok((key, key_end)) => {
            let colon = skip_blanks(s, key_end);
            lemma_skip_blanks(s, key_end);
            if byte_at(s, colon, 58) {
                let start = skip_blanks(s, colon + 1);
                lemma_skip_blanks(s, colon + 1);
                lemma_read_value(s, start, depth, limit);
                match read_value(s, start, depth, limit) {
                    Err(e) => {},
                    Ok((item, end)) => {
                        let items = acc.push(placed(item, Some(key), acc.len()));
                        let after = skip_blanks(s, end);
                        lemma_skip_blanks(s, end);
                        assert(placed_well(items, true, limit - depth)) by {
                            assert forall|i: int| 0 <= i < items.len() implies {
                                &&& (#[trigger] items[i]).wf()
                                &&& items[i].key is Some == true
                                &&& items[i].handle == i
                                &&& items[i].depth() <= limit - depth
                            } by {
                                if i < acc.len() {
                                    assert(items[i] == acc[i]);
                                } else {
                                    assert(items[i].value == item.value);
                                    assert(items[i].depth() == item.depth());
                                }
                            }
                        }
                        if byte_at(s, after, 125) {
                            lemma_container_made(items, true, limit - depth);
                        } else if byte_at(s, after, 44) {
                            let next = skip_blanks(s, after + 1);
                            lemma_skip_blanks(s, after + 1);
                            lemma_read_members(s, next, depth, limit, items);
                        }
                    },
                }
            }
        },
    }
}

/// The part of the text that is parsed: its first `buffer_length` bytes,
/// and all of it where it has no more.
pub open spec fn buffer(text: Seq<u8>, buffer_length: usize) -> Seq<u8> {
    if buffer_length <= text.len() {
        text.subrange(0, buffer_length as int)
    } else {
        text
    }
}

/// What parsing `text` answers: an empty text and a text with a zero byte
/// are refused as such; otherwise the first `buffer_length` bytes are read
/// with the nesting limit `limit`, and the answer is the tree with the
/// place behind the value, or the refusal.
pub open spec fn parse_answer(text: Seq<u8>, buffer_length: usize, limit: usize) -> Read<Node> {
    if text.len() == 0 {
        Err(JsonError::EmptyStringError)
    } else if !nul_free(text) {
        Err(JsonError::CStringError(crate::text::nul_position(text) as usize))
    } else {
        read_text(buffer(text, buffer_length), limit as nat)
    }
}

/// The answer without the place.
pub open spec fn tree_of(answer: Read<Node>) -> Result<Node, JsonError> {
    match answer {
        Ok((node, _)) => Ok(node),
        Err(e) => Err(e),
    }
}

/// The view of what parsing answered.
pub open spec fn tree_and_end(r: Result<(Json, usize), JsonError>) -> Read<Node> {
    match r {
        Ok((j, end)) => Ok((j@, end as int)),
        Err(e) => Err(e),
    }
}

/// The view of the tree that parsing answered.
pub open spec fn tree(r: Result<Json, JsonError>) -> Result<Node, JsonError> {
    match r {
        Ok(j) => Ok(j@),
        Err(e) => Err(e),
    }
}

/// Parses the first `buffer_length` bytes of `value`, with containers
/// nested at most `nesting_limit` deep. Hands back the tree and the place
/// behind the value that was read; what follows it in the text is not
/// looked at.
pub fn cjson_parse_json_with_opts(value: &str, buffer_length: usize, nesting_limit: usize) -> (r:
    Result<(Json, usize), JsonError>)
    ensures
        tree_and_end(r) == parse_answer(encode_utf8(value@), buffer_length, nesting_limit),
        r matches Ok((j, end)) ==> j@.wf() && j@.depth() <= nesting_limit && end <= buffer(
            encode_utf8(value@),
            buffer_length,
        ).len() && crate::node::textual(j@),
{
    let bytes = bytes_of(value);
    if bytes.len() == 0 {
        return Err(JsonError::EmptyStringError);
    }
    match find_nul(bytes.as_slice()) {
        Some(at) => {
            proof {
                crate::text::lemma_nul_position(bytes@, at as int);
            }
            return Err(JsonError::CStringError(at));
        },
        None => {},
    }
    let length = if buffer_length <= bytes.len() {
        buffer_length
    } else {
        bytes.len()
    };
    let text = slice_subrange(bytes.as_slice(), 0, length);
    proof {
        assert(text@ =~= buffer(bytes@, buffer_length));
        lemma_skip_blanks(text@, 0);
        lemma_read_value(text@, skip_blanks(text@, 0), 0, nesting_limit as nat);
        vstd::utf8::encode_utf8_valid_utf8(value@);
        crate::utf8::lemma_read_textual(
            bytes@,
            text@,
            skip_blanks(text@, 0),
            0,
            nesting_limit as nat,
        );
    }
    let start = pass_blanks(text, 0);
    parse_value(text, start, 0, nesting_limit)
}

/// Parses `value`, with containers nested at most [`CJSON_NESTING_LIMIT`]
/// deep. What follows the value in the text is not looked at.
pub fn cjson_parse_json(value: String) -> (r: Result<Json, JsonError>)
    ensures
        tree(r) == tree_of(parse_answer(encode_utf8(value@), usize::MAX, CJSON_NESTING_LIMIT)),
        r matches Ok(j) ==> j@.wf() && j@.depth() <= CJSON_NESTING_LIMIT && crate::node::textual(
            j@,
        ),
{
    match cjson_parse_json_with_opts(value.as_str(), usize::MAX, CJSON_NESTING_LIMIT) {
        Ok((j, _)) => Ok(j),
        Err(e) => Err(e),
    }
}

/// Parses the first `buffer_length` bytes of `value`, with containers
/// nested at most [`CJSON_NESTING_LIMIT`] deep. What follows the value is
/// not looked at.
pub fn cjson_parse_json_with_length(value: String, buffer_length: usize) -> (r: Result<
    Json,
    JsonError,
>)
    ensures
        tree(r) == tree_of(
            parse_answer(encode_utf8(value@), buffer_length, CJSON_NESTING_LIMIT),
        ),
        r matches Ok(j) ==> j@.wf() && j@.depth() <= CJSON_NESTING_LIMIT && crate::node::textual(
            j@,
        ),
{
    match cjson_parse_json_with_opts(value.as_str(), buffer_length, CJSON_NESTING_LIMIT) {
        Ok((j, _)) => Ok(j),
        Err(e) => Err(e),
    }
}

/// What is left of the text at the place where parsing stopped: for a
/// parse error or a nesting error, the text from the offset on.
pub fn cjson_get_error_ptr(value: &str, error: &JsonError) -> (r: Option<String>)
    ensures
        match *error {
            JsonError::ParseError(at) => r matches Some(rest) && rest@ == crate::text::text_of(
                rest_from(encode_utf8(value@), at),
            ),
            JsonError::NestingLimitExceeded(at) => r matches Some(rest) && rest@
                == crate::text::text_of(rest_from(encode_utf8(value@), at)),
            _ => r is None,
        },
{
    let at = match error {
        JsonError::ParseError(at) => *at,
        JsonError::NestingLimitExceeded(at) => *at,
        _ => {
            return None;
        },
    };
    let bytes = bytes_of(value);
    let from = if at <= bytes.len() {
        at
    } else {
        bytes.len()
    };
    let rest = slice_subrange(bytes.as_slice(), from, bytes.len());
    proof {
        assert(rest@ =~= rest_from(bytes@, at));
    }
    Some(crate::text::string_of(rest))
}

/// The text from `at` on; nothing where `at` is behind its end.
pub open spec fn rest_from(text: Seq<u8>, at: usize) -> Seq<u8> {
    if at <= text.len() {
        text.subrange(at as int, text.len() as int)
    } else {
        Seq::empty()
    }
}

/// How what is read under a limit stands to what is read under a greater
/// one: the same, unless the lesser limit refuses the text as nesting too
/// deep.
pub open spec fn under_limit(strict: Read<Node>, loose: Read<Node>) -> bool {
    match strict {
        Err(JsonError::NestingLimitExceeded(_)) => true,
        _ => loose == strict,
    }
}

/// A value is read the same under a greater limit, unless the lesser one
/// refuses it as nesting too deep.
pub proof fn lemma_limit_value(s: Seq<u8>, pos: int, depth: nat, limit: nat, bigger: nat)
    requires
        limit <= bigger,
    ensures
        under_limit(read_value(s, pos, depth, limit), read_value(s, pos, depth, bigger)),
    decreases s.len() - pos, 0nat,
{
    if !(0 <= pos < s.len()) {
    } else if s[pos] == 91 {
        let first = skip_blanks(s, pos + 1);
        if depth >= limit {
        } else if byte_at(s, first, 93) {
        } else if pos < first <= s.len() {
            lemma_limit_elements(s, first, depth + 1, limit, bigger, Seq::empty());
        }
    } else if s[pos] == 123 {
        let first = skip_blanks(s, pos + 1);
        if depth >= limit {
        } else if byte_at(s, first, 125) {
        } else if pos < first <= s.len() {
            lemma_limit_members(s, first, depth + 1, limit, bigger, Seq::empty());
        }
    } else {
    }
}

/// The rest of an array is read the same under a greater limit, unless the
/// lesser one refuses it as nesting too deep.
pub proof fn lemma_limit_elements(
    s: Seq<u8>,
    pos: int,
    depth: nat,
    limit: nat,
    bigger: nat,
    acc: Seq<Node>,
)
    requires
        limit <= bigger,
    ensures
        under_limit(
            read_elements(s, pos, depth, limit, acc),
            read_elements(s, pos, depth, bigger, acc),
        ),
    decreases s.len() - pos, 1nat,
{
    lemma_limit_value(s, pos, depth, limit, bigger);
    match read_value(s, pos, depth, limit) {
        Err(e) => {},
        Ok((item, end)) => {
            let items = acc.push(placed(item, None, acc.len()));
            let after = skip_blanks(s, end);
            if byte_at(s, after, 93) {
            } else if byte_at(s, after, 44) {
                let next = skip_blanks(s, after + 1);
                if pos < next <= s.len() {
                    lemma_limit_elements(s, next, depth, limit, bigger, items);
                }
            }
        },
    }
}

/// The rest of an object is read the same under a greater limit, unless
/// the lesser one refuses it as nesting too deep.
pub proof fn lemma_limit_members(
    s: Seq<u8>,
    pos: int,
    depth: nat,
    limit: nat,
    bigger: nat,
    acc: Seq<Node>,
)
    requires
        limit <= bigger,
    ensures
        under_limit(
            read_members(s, pos, depth, limit, acc),
            read_members(s, pos, depth, bigger, acc),
        ),
    decreases s.len() - pos, 1nat,
{
    match read_string(s, pos) {
        Err(e) => {},
        Ok((key, key_end)) => {
            let colon = skip_blanks(s, key_end);
            let start = skip_blanks(s, colon + 1);
            if byte_at(s, colon, 58) && pos < start <= s.len() {
                lemma_limit_value(s, start, depth, limit, bigger);
                match read_value(s, start, depth, limit) {
                    Err(e) => {},
                    Ok((item, end)) => {
                        let items = acc.push(placed(item, Some(key), acc.len()));
                        let after = skip_blanks(s, end);
                        if byte_at(s, after, 125) {
                        } else if byte_at(s, after, 44) {
                            let next = skip_blanks(s, after + 1);
                            if pos < next <= s.len() {
                                lemma_limit_members(s, next, depth, limit, bigger, items);
                            }
                        }
                    },
                }
            }
        },
    }
}

/// A text that nests deeper than the limit is refused as nesting too
/// deep, whatever else it holds: where a greater limit lets the text parse
/// to a tree that is deeper than `limit`, parsing with `limit` answers that
/// the nesting limit is exceeded.
pub proof fn law_nesting_limit(text: Seq<u8>, buffer_length: usize, limit: usize, bigger: usize)
    requires
        text.len() <= usize::MAX,
        limit <= bigger,
        parse_answer(text, buffer_length, bigger) matches Ok((node, _)) && node.depth() > limit,
    ensures
        parse_answer(text, buffer_length, limit) matches Err(JsonError::NestingLimitExceeded(_)),
{
    let s = buffer(text, buffer_length);
    let start = skip_blanks(s, 0);
    lemma_skip_blanks(s, 0);
    lemma_limit_value(s, start, 0, limit as nat, bigger as nat);
    lemma_read_value(s, start, 0, limit as nat);
}

/// A tree that parsing answers never nests deeper than the limit.
pub proof fn law_parsed_depth(text: Seq<u8>, buffer_length: usize, limit: usize)
    requires
        text.len() <= usize::MAX,
    ensures
        parse_answer(text, buffer_length, limit) matches Ok((node, _)) ==> node.depth() <= limit
            && node.wf(),
{
    let s = buffer(text, buffer_length);
    lemma_skip_blanks(s, 0);
    if text.len() > 0 && nul_free(text) {
        lemma_read_value(s, skip_blanks(s, 0), 0, limit as nat);
    }
}

/// No node of the tree holds raw text.
pub open spec fn raw_free(t: Node) -> bool
    decreases t,
{
    match t.value {
        Value::Raw(_) => false,
        Value::Array(items) => forall|i: int| 0 <= i < items.len() ==> raw_free(#[trigger] items[i]),
        Value::Object(items) => forall|i: int|
            0 <= i < items.len() ==> raw_free(#[trigger] items[i]),
        _ => true,
    }
}

/// Every node of the sequence is free of raw text.
pub open spec fn all_raw_free(items: Seq<Node>) -> bool {
    forall|i: int| 0 <= i < items.len() ==> raw_free(#[trigger] items[i])
}

proof fn lemma_raw_free_push(acc: Seq<Node>, item: Node, key: Option<Seq<u8>>)
    requires
        all_raw_free(acc),
        raw_free(item),
    ensures
        all_raw_free(acc.push(placed(item, key, acc.len()))),
{
    let items = acc.push(placed(item, key, acc.len()));
    assert forall|i: int| 0 <= i < items.len() implies raw_free(#[trigger] items[i]) by {
        if i < acc.len() {
            assert(items[i] == acc[i]);
        } else {
            assert(items[i].value == item.value);
        }
    }
}

/// The parser makes no node of raw text.
pub proof fn lemma_raw_free_value(s: Seq<u8>, pos: int, depth: nat, limit: nat)
    ensures
        read_value(s, pos, depth, limit) matches Ok((node, _)) ==> raw_free(node),
    decreases s.len() - pos, 0nat,
{
    if !(0 <= pos < s.len()) {
    } else if s[pos] == 91 {
        let first = skip_blanks(s, pos + 1);
        if depth >= limit {
        } else if byte_at(s, first, 93) {
        } else if pos < first <= s.len() {
            lemma_raw_free_elements(s, first, depth + 1, limit, Seq::empty());
        }
    } else if s[pos] == 123 {
        let first = skip_blanks(s, pos + 1);
        if depth >= limit {
        } else if byte_at(s, first, 125) {
        } else if pos < first <= s.len() {
            lemma_raw_free_members(s, first, depth + 1, limit, Seq::empty());
        }
    } else {
    }
}

/// The parser makes no node of raw text in an array.
pub proof fn lemma_raw_free_elements(s: Seq<u8>, pos: int, depth: nat, limit: nat, acc: Seq<Node>)
    requires
        all_raw_free(acc),
    ensures
        read_elements(s, pos, depth, limit, acc) matches Ok((node, _)) ==> raw_free(node),
    decreases s.len() - pos, 1nat,
{
    lemma_raw_free_value(s, pos, depth, limit);
    match read_value(s, pos, depth, limit) {
        Err(e) => {},
        Ok((item, end)) => {
            let items = acc.push(placed(item, None, acc.len()));
            lemma_raw_free_push(acc, item, None);
            let after = skip_blanks(s, end);
            if byte_at(s, after, 93) {
            } else if byte_at(s, after, 44) {
                let next = skip_blanks(s, after + 1);
                if pos < next <= s.len() {
                    lemma_raw_free_elements(s, next, depth, limit, items);
                }
            }
        },
    }
}

/// The parser makes no node of raw text in an object.
pub proof fn lemma_raw_free_members(s: Seq<u8>, pos: int, depth: nat, limit: nat, acc: Seq<Node>)
    requires
        all_raw_free(acc),
    ensures
        read_members(s, pos, depth, limit, acc) matches Ok((node, _)) ==> raw_free(node),
    decreases s.len() - pos, 1nat,
{
    match read_string(s, pos) {
        Err(e) => {},
        Ok((key, key_end)) => {
            let colon = skip_blanks(s, key_end);
            let start = skip_blanks(s, colon + 1);
            if byte_at(s, colon, 58) && pos < start <= s.len() {
                lemma_raw_free_value(s, start, depth, limit);
                match read_value(s, start, depth, limit) {
                    Err(e) => {},
                    Ok((item, end)) => {
                        let items = acc.push(placed(item, Some(key), acc.len()));
                        lemma_raw_free_push(acc, item, Some(key));
                        let after = skip_blanks(s, end);
                        if byte_at(s, after, 125) {
                        } else if byte_at(s, after, 44) {
                            let next = skip_blanks(s, after + 1);
                            if pos < next <= s.len() {
                                lemma_raw_free_members(s, next, depth, limit, items);
                            }
                        }
                    },
                }
            }
        },
    }
}

} // verus!
