//! Making nodes, and reading and setting what a scalar holds.

use vstd::prelude::*;
use vstd::utf8::encode_utf8;
use crate::edit::name_bytes;
use crate::error::{is_nul_error, is_type_mismatch, type_mismatch, JsonError};
use vstd::std_specs::vec::axiom_vec_index_decreases;
use crate::double::{double_to_int, int_twin};
use crate::format::{binary_to_double, double_of_binary};
use crate::node::{
    lemma_nodes_of_by_elements, lemma_nodes_upto, nodes_of, snapshot_all, textual, Json,
    JsonValue, Node, Value,
};
use crate::parse::{array_of, lemma_container_made, placed, placed_well};
use crate::text::{nul_free, string_of, text_of};

verus! {

/// A node that holds null.
pub fn cjson_create_null() -> (r: Json)
    ensures
        r@ == Node::fresh(Value::Null),
        r@.wf(),
        textual(r@),
{
    Json::new(JsonValue::Null)
}

/// A node that holds true.
pub fn cjson_create_true() -> (r: Json)
    ensures
        r@ == Node::fresh(Value::Bool(true)),
        r@.wf(),
        textual(r@),
{
    Json::new(JsonValue::Bool(true))
}

/// A node that holds false.
pub fn cjson_create_false() -> (r: Json)
    ensures
        r@ == Node::fresh(Value::Bool(false)),
        r@.wf(),
        textual(r@),
{
    Json::new(JsonValue::Bool(false))
}

/// A node that holds `boolean`.
pub fn cjson_create_bool(boolean: bool) -> (r: Json)
    ensures
        r@ == Node::fresh(Value::Bool(boolean)),
        r@.wf(),
        textual(r@),
{
    Json::new(JsonValue::Bool(boolean))
}

/// A node that holds the number whose IEEE-754 double has the bits `num`.
pub fn cjson_create_number(num: u64) -> (r: Json)
    ensures
        r@ == Node::fresh(Value::Number(num)),
        r@.wf(),
        textual(r@),
{
    Json::new(JsonValue::Number(num))
}

/// An array without members.
pub fn cjson_create_array() -> (r: Json)
    ensures
        r@ == Node::fresh(Value::Array(Seq::empty())),
        r@.wf(),
        textual(r@),
{
    let r = Json::new(JsonValue::Array(Vec::new()));
    proof {
        assert(r@.members() =~= Seq::empty());
    }
    r
}

/// An object without members.
pub fn cjson_create_object() -> (r: Json)
    ensures
        r@ == Node::fresh(Value::Object(Seq::empty())),
        r@.wf(),
        textual(r@),
{
    let r = Json::new(JsonValue::Object(Vec::new()));
    proof {
        assert(r@.members() =~= Seq::empty());
    }
    r
}

/// A node that holds a copy of `string`.
pub fn cjson_create_string(string: String) -> (r: Result<Json, JsonError>)
    ensures
        nul_free(encode_utf8(string@)) ==> (r matches Ok(j) && j@ == Node::fresh(
            Value::String(encode_utf8(string@)),
        ) && j@.wf() && textual(j@)),
        !nul_free(encode_utf8(string@)) ==> is_nul_error(r, encode_utf8(string@)),
{
    match name_bytes(string.as_str()) {
        Ok(bytes) => Ok(Json::new(JsonValue::String(bytes))),
        Err(e) => Err(e),
    }
}

/// A node that holds `raw`, which is printed as it stands.
pub fn cjson_create_raw(raw: String) -> (r: Result<Json, JsonError>)
    ensures
        nul_free(encode_utf8(raw@)) ==> (r matches Ok(j) && j@ == Node::fresh(
            Value::Raw(encode_utf8(raw@)),
        ) && j@.wf() && textual(j@)),
        !nul_free(encode_utf8(raw@)) ==> is_nul_error(r, encode_utf8(raw@)),
{
    match name_bytes(raw.as_str()) {
        Ok(bytes) => Ok(Json::new(JsonValue::Raw(bytes))),
        Err(e) => Err(e),
    }
}

/// A node that holds `string` and is marked as not owning it.
pub fn cjson_create_string_reference(string: String) -> (r: Result<Json, JsonError>)
    ensures
        nul_free(encode_utf8(string@)) ==> (r matches Ok(j) && j@ == Node::fresh(
            Value::String(encode_utf8(string@)),
        ).as_reference() && j@.wf() && textual(j@)),
        !nul_free(encode_utf8(string@)) ==> is_nul_error(r, encode_utf8(string@)),
{
    match name_bytes(string.as_str()) {
        Ok(bytes) => {
            let mut r = Json::new(JsonValue::String(bytes));
            r.is_reference = true;
            Ok(r)
        },
        Err(e) => Err(e),
    }
}

/// What a reference to the container `target` is: a node with the members
/// of `target`, marked as not owning them, and no member of anything.
pub open spec fn reference_to(target: Node) -> Node {
    Node { handle: 0, ..target.as_reference() }
}

/// A reference to the array `child`.
pub fn cjson_create_array_reference(child: &Json) -> (r: Result<Json, JsonError>)
    ensures
        child@.value is Array ==> (r matches Ok(j) && j@ == reference_to(child@)),
        !(child@.value is Array) ==> is_type_mismatch(
            r,
            "cannot create array reference to a non-array Json item"@,
        ),
        child@.wf() ==> (r matches Ok(j) ==> j@.wf()),
        textual(child@) ==> (r matches Ok(j) ==> textual(j@)),
{
    match &child.value {
        JsonValue::Array(items) => {
            let mut r = Json::new(JsonValue::Array(snapshot_all(items)));
            r.is_reference = true;
            r.next_handle = child.next_handle;
            Ok(r)
        },
        _ => type_mismatch("cannot create array reference to a non-array Json item"),
    }
}

/// A reference to the object `child`.
pub fn cjson_create_object_reference(child: &Json) -> (r: Result<Json, JsonError>)
    ensures
        child@.value is Object ==> (r matches Ok(j) && j@ == reference_to(child@)),
        !(child@.value is Object) ==> is_type_mismatch(
            r,
            "cannot create object reference to a non-object Json item"@,
        ),
        child@.wf() ==> (r matches Ok(j) ==> j@.wf()),
        textual(child@) ==> (r matches Ok(j) ==> textual(j@)),
{
    match &child.value {
        JsonValue::Object(items) => {
            let mut r = Json::new(JsonValue::Object(snapshot_all(items)));
            r.is_reference = true;
            r.next_handle = child.next_handle;
            Ok(r)
        },
        _ => type_mismatch("cannot create object reference to a non-object Json item"),
    }
}

/// The text of a string node.
pub fn cjson_get_string_value(item: &Json) -> (r: Result<String, JsonError>)
    ensures
        match item@.value {
            Value::String(s) => r matches Ok(text) && text@ == text_of(s) && (
            vstd::utf8::valid_utf8(s) ==> encode_utf8(text@) == s),
            _ => is_type_mismatch(r, "cannot get string value from a non-string Json item"@),
        },
{
    match &item.value {
        JsonValue::String(s) => {
            proof {
                if vstd::utf8::valid_utf8(s@) {
                    vstd::utf8::decode_utf8_encode_utf8(s@);
                }
            }
            Ok(string_of(s.as_slice()))
        },
        _ => type_mismatch("cannot get string value from a non-string Json item"),
    }
}

/// The number of a number node, as the bits of its double.
pub fn cjson_get_number_value(item: &Json) -> (r: Result<u64, JsonError>)
    ensures
        match item@.value {
            Value::Number(bits) => r == Ok::<u64, JsonError>(bits),
            _ => is_type_mismatch(r, "cannot get number value from a non-number Json item"@),
        },
{
    match &item.value {
        JsonValue::Number(bits) => Ok(*bits),
        _ => type_mismatch("cannot get number value from a non-number Json item"),
    }
}

/// Gives a number node another number, and hands the number back.
pub fn cjson_set_number_helper(object: &mut Json, number: u64) -> (r: Result<u64, JsonError>)
    ensures
        old(object)@.value is Number ==> r == Ok::<u64, JsonError>(number) && final(object)@ == (Node {
            value: Value::Number(number),
            ..old(object)@
        }),
        !(old(object)@.value is Number) ==> is_type_mismatch(
            r,
            "cannot set number value for a non-number Json item"@,
        ) && final(object)@ == old(object)@,
        old(object)@.wf() ==> final(object)@.wf(),
        textual(old(object)@) ==> textual(final(object)@),
{
    match &object.value {
        JsonValue::Number(_) => {
            object.value = JsonValue::Number(number);
            Ok(number)
        },
        _ => type_mismatch("cannot set number value for a non-number Json item"),
    }
}

/// Gives a string node that owns its text another text, and hands the text
/// back.
pub fn cjson_set_value_string(object: &mut Json, valuestring: &str) -> (r: Result<
    String,
    JsonError,
>)
    ensures
        !(old(object)@.value is String) ==> is_type_mismatch(
            r,
            "cannot set string value for a non-string Json item"@,
        ) && final(object)@ == old(object)@,
        old(object)@.value is String && !nul_free(encode_utf8(valuestring@)) ==> is_nul_error(
            r,
            encode_utf8(valuestring@),
        ) && final(object)@ == old(object)@,
        old(object)@.value is String && nul_free(encode_utf8(valuestring@)) && old(object)@.is_reference ==> (r matches Err(JsonError::NullPointer)) && final(object)@ == old(object)@,
        old(object)@.value is String && nul_free(encode_utf8(valuestring@)) && !old(object)@.is_reference ==> (r matches Ok(text) && text@ == valuestring@) && final(object)@ == (Node {
            value: Value::String(encode_utf8(valuestring@)),
            ..old(object)@
        }),
        old(object)@.wf() ==> final(object)@.wf(),
        textual(old(object)@) ==> textual(final(object)@),
{
    match &object.value {
        JsonValue::String(_) => match name_bytes(valuestring) {
            Ok(bytes) => {
                if object.is_reference {
                    Err(JsonError::NullPointer)
                } else {
                    object.value = JsonValue::String(bytes);
                    Ok(valuestring.to_owned())
                }
            },
            Err(e) => Err(e),
        },
        _ => type_mismatch("cannot set string value for a non-string Json item"),
    }
}

/// The version of the engine.
pub const CJSON_VERSION_MAJOR: u32 = 1;

/// The minor part of the version.
pub const CJSON_VERSION_MINOR: u32 = 7;

/// The patch part of the version.
pub const CJSON_VERSION_PATCH: u32 = 18;

/// The version of the engine, as text.
pub fn cjson_version() -> (r: String)
    ensures
        r@ == "1.7.18"@,
{
    "1.7.18".to_owned()
}

/// The bits of the double that is the integer `v`.
pub open spec fn double_of_int(v: int) -> u64 {
    double_of_binary(
        v < 0,
        (if v < 0 {
            -v
        } else {
            v
        }) as nat,
        0,
    )
}

/// The bits of the double that has the value of the single with the bits
/// `bits`: an infinity or a NaN keeps its sign and its fraction, and a
/// number is the double nearest to the fraction of the single, with the
/// leading one where the exponent field is not 0, times the power of two
/// of its exponent.
pub open spec fn double_of_single(bits: u32) -> u64 {
    let negative = bits >= 0x8000_0000;
    let field = (bits % 0x8000_0000) / 0x80_0000;
    let fraction = bits % 0x80_0000;
    if field == 255 {
        ((if negative {
            0x8000_0000_0000_0000int
        } else {
            0int
        }) + 0x7FF0_0000_0000_0000 + fraction * 0x2000_0000) as u64
    } else if field == 0 {
        double_of_binary(negative, fraction as nat, -149)
    } else {
        double_of_binary(negative, (0x80_0000 + fraction) as nat, field - 150)
    }
}

/// The bits of the double that is the integer `v`.
pub fn int_to_double(v: i32) -> (r: u64)
    ensures
        r == double_of_int(v as int),
{
    let size: u64 = if v < 0 {
        (-(v as i64)) as u64
    } else {
        v as u64
    };
    binary_to_double(v < 0, size, 0)
}

/// The bits of the double that has the value of a single.
pub fn single_to_double(bits: u32) -> (r: u64)
    ensures
        r == double_of_single(bits),
{
    let negative = bits >= 0x8000_0000;
    let field: u32 = (bits % 0x8000_0000) / 0x80_0000;
    let fraction: u32 = bits % 0x80_0000;
    if field == 255 {
        (if negative {
            0x8000_0000_0000_0000u64
        } else {
            0u64
        }) + 0x7FF0_0000_0000_0000u64 + (fraction as u64) * 0x2000_0000
    } else if field == 0 {
        binary_to_double(negative, fraction as u64, -149)
    } else {
        binary_to_double(negative, (0x80_0000 + fraction) as u64, field as i32 - 150)
    }
}

/// The number of a number node as a 32-bit integer: the whole part of the
/// double, held to the range, and 0 for a NaN. A node that is no number
/// has none.
pub fn cjson_get_int_value(item: &Json) -> (r: Option<i32>)
    ensures
        match item@.value {
            Value::Number(bits) => r == Some(int_twin(bits)),
            _ => r is None,
        },
{
    match &item.value {
        JsonValue::Number(bits) => Some(double_to_int(*bits)),
        _ => None,
    }
}

/// An array of numbers: the member at `i` holds `numbers[i]`, under the
/// handle `i`.
pub open spec fn array_of_numbers(numbers: Seq<u64>) -> Node {
    array_of(
        Seq::new(
            numbers.len(),
            |i: int| placed(Node::fresh(Value::Number(numbers[i])), None, i as nat),
        ),
    )
}

/// An array of the numbers with the bits `numbers`.
fn number_array(numbers: Vec<u64>) -> (r: Json)
    ensures
        r@ == array_of_numbers(numbers@),
        r@.wf(),
        textual(r@),
{
    let mut items: Vec<Json> = Vec::new();
    let mut i: usize = 0;
    while i < numbers.len()
        invariant
            i <= numbers.len(),
            items.len() == i,
            forall|k: int|
                0 <= k < i ==> (#[trigger] items[k])@ == placed(
                    Node::fresh(Value::Number(numbers[k])),
                    None,
                    k as nat,
                ),
        decreases numbers.len() - i,
    {
        let mut item = Json::new(JsonValue::Number(numbers[i]));
        item.handle = i as u64;
        items.push(item);
        i += 1;
    }
    let count = items.len();
    proof {
        let nodes = array_of_numbers(numbers@).members();
        lemma_nodes_of_by_elements(items, nodes);
        assert(placed_well(nodes, false, 0));
        lemma_container_made(nodes, false, 0);
        assert forall|j: int| 0 <= j < nodes.len() implies textual(#[trigger] nodes[j]) by {}
    }
    let mut r = Json::new(JsonValue::Array(items));
    r.next_handle = count as u64;
    r
}

/// The first `count` of `numbers`, where there are as many.
pub open spec fn first_of<T>(numbers: Seq<T>, count: i32) -> Option<Seq<T>> {
    if 0 <= count <= numbers.len() {
        Some(numbers.subrange(0, count as int))
    } else {
        None
    }
}

/// An array of the first `count` of the integers `numbers`; nothing where
/// `count` is negative or there are fewer.
pub fn cjson_create_int_array(numbers: &[i32], count: i32) -> (r: Option<Json>)
    ensures
        match first_of(numbers@, count) {
            Some(taken) => r matches Some(j) && j@ == array_of_numbers(
                Seq::new(taken.len(), |i: int| double_of_int(taken[i] as int)),
            ) && j@.wf() && textual(j@),
            None => r is None,
        },
{
    if count < 0 || count as usize > numbers.len() {
        return None;
    }
    let mut bits: Vec<u64> = Vec::new();
    let mut i: usize = 0;
    while i < count as usize
        invariant
            0 <= count,
            i <= count as usize <= numbers.len(),
            bits.len() == i,
            forall|k: int| 0 <= k < i ==> bits[k] == double_of_int(numbers[k] as int),
        decreases count as usize - i,
    {
        bits.push(int_to_double(numbers[i]));
        i += 1;
    }
    proof {
        let taken = numbers@.subrange(0, count as int);
        assert(bits@ =~= Seq::new(taken.len(), |i: int| double_of_int(taken[i] as int)));
    }
    Some(number_array(bits))
}

/// An array of the first `count` of the singles with the bits `numbers`,
/// each as a double; nothing where `count` is negative or there are fewer.
pub fn cjson_create_float_array(numbers: &[u32], count: i32) -> (r: Option<Json>)
    ensures
        match first_of(numbers@, count) {
            Some(taken) => r matches Some(j) && j@ == array_of_numbers(
                Seq::new(taken.len(), |i: int| double_of_single(taken[i])),
            ) && j@.wf() && textual(j@),
            None => r is None,
        },
{
    if count < 0 || count as usize > numbers.len() {
        return None;
    }
    let mut bits: Vec<u64> = Vec::new();
    let mut i: usize = 0;
    while i < count as usize
        invariant
            0 <= count,
            i <= count as usize <= numbers.len(),
            bits.len() == i,
            forall|k: int| 0 <= k < i ==> bits[k] == double_of_single(numbers[k]),
        decreases count as usize - i,
    {
        bits.push(single_to_double(numbers[i]));
        i += 1;
    }
    proof {
        let taken = numbers@.subrange(0, count as int);
        assert(bits@ =~= Seq::new(taken.len(), |i: int| double_of_single(taken[i])));
    }
    Some(number_array(bits))
}

/// An array of the first `count` of the doubles with the bits `numbers`;
/// nothing where `count` is negative or there are fewer.
pub fn cjson_create_double_array(numbers: &[u64], count: i32) -> (r: Option<Json>)
    ensures
        match first_of(numbers@, count) {
            Some(taken) => r matches Some(j) && j@ == array_of_numbers(taken) && j@.wf() && textual(j@),
            None => r is None,
        },
{
    if count < 0 || count as usize > numbers.len() {
        return None;
    }
    let taken = vstd::slice::slice_subrange(numbers, 0, count as usize);
    Some(number_array(vstd::slice::slice_to_vec(taken)))
}

/// The bytes of each string.
pub open spec fn bytes_of_all(strings: Seq<&str>) -> Seq<Seq<u8>> {
    Seq::new(strings.len(), |i: int| encode_utf8(strings[i]@))
}

/// An array of strings: the member at `i` holds `texts[i]`, under the
/// handle `i`.
pub open spec fn array_of_texts(texts: Seq<Seq<u8>>) -> Node {
    array_of(
        Seq::new(
            texts.len(),
            |i: int| placed(Node::fresh(Value::String(texts[i])), None, i as nat),
        ),
    )
}

/// The place of the first string that holds a zero byte.
pub open spec fn first_bad(texts: Seq<Seq<u8>>, at: int) -> bool {
    &&& 0 <= at < texts.len()
    &&& !nul_free(texts[at])
    &&& forall|i: int| 0 <= i < at ==> nul_free(#[trigger] texts[i])
}

/// No string holds a zero byte.
pub open spec fn all_nul_free(texts: Seq<Seq<u8>>) -> bool {
    forall|i: int| 0 <= i < texts.len() ==> nul_free(#[trigger] texts[i])
}

/// An array of copies of the first `count` of `strings`. The first of the
/// strings that holds a zero byte is refused; where `count` is negative or
/// there are fewer strings, there is no array.
pub fn cjson_create_string_array(strings: &[&str], count: i32) -> (r: Result<Json, JsonError>)
    ensures
        all_nul_free(bytes_of_all(strings@)) ==> match first_of(bytes_of_all(strings@), count) {
            Some(taken) => r matches Ok(j) && j@ == array_of_texts(taken) && j@.wf() && textual(j@),
            None => r == Err::<Json, JsonError>(JsonError::NullPointer),
        },
        !all_nul_free(bytes_of_all(strings@)) ==> exists|at: int|
            #[trigger] first_bad(bytes_of_all(strings@), at) && is_nul_error(
                r,
                bytes_of_all(strings@)[at],
            ),
{
    let ghost texts = bytes_of_all(strings@);
    let mut copies: Vec<Vec<u8>> = Vec::new();
    let mut i: usize = 0;
    while i < strings.len()
        invariant
            i <= strings.len(),
            texts == bytes_of_all(strings@),
            texts.len() == strings.len(),
            copies.len() == i,
            forall|k: int| 0 <= k < i ==> (#[trigger] copies[k])@ == texts[k],
            forall|k: int| 0 <= k < i ==> nul_free(#[trigger] texts[k]),
            forall|k: int| 0 <= k < i ==> vstd::utf8::valid_utf8(#[trigger] texts[k]),
        decreases strings.len() - i,
    {
        proof {
            assert(texts[i as int] == encode_utf8(strings[i as int]@));
        }
        match name_bytes(strings[i]) {
            Ok(bytes) => {
                copies.push(bytes);
            },
            Err(e) => {
                proof {
                    assert(first_bad(texts, i as int));
                }
                return Err(e);
            },
        }
        i += 1;
    }
    if count < 0 || count as usize > strings.len() {
        return Err(JsonError::NullPointer);
    }
    let mut items: Vec<Json> = Vec::new();
    let mut k: usize = 0;
    while k < count as usize
        invariant
            0 <= count,
            k <= count as usize <= strings.len(),
            texts.len() == strings.len(),
            copies.len() == strings.len(),
            items.len() == k,
            forall|j: int| 0 <= j < strings.len() ==> (#[trigger] copies[j])@ == texts[j],
            forall|j: int|
                0 <= j < k ==> (#[trigger] items[j])@ == placed(
                    Node::fresh(Value::String(texts[j])),
                    None,
                    j as nat,
                ),
        decreases count as usize - k,
    {
        let mut item = Json::new(
            JsonValue::String(vstd::slice::slice_to_vec(copies[k].as_slice())),
        );
        item.handle = k as u64;
        items.push(item);
        k += 1;
    }
    let made = items.len();
    proof {
        let taken = texts.subrange(0, count as int);
        let nodes = array_of_texts(taken).members();
        lemma_nodes_of_by_elements(items, nodes);
        assert forall|j: int| 0 <= j < nodes.len() implies {
            &&& (#[trigger] nodes[j]).wf()
            &&& nodes[j].key is Some == false
            &&& nodes[j].handle == j
            &&& nodes[j].depth() <= 0
        } by {
            assert(nul_free(texts[j]));
        }
        lemma_container_made(nodes, false, 0);
        assert forall|j: int| 0 <= j < nodes.len() implies textual(#[trigger] nodes[j]) by {
            assert(vstd::utf8::valid_utf8(texts[j]));
        }
    }
    let mut r = Json::new(JsonValue::Array(items));
    r.next_handle = made as u64;
    Ok(r)
}

/// The number of nodes that go when a tree is destroyed: the node itself
/// and, unless it is a reference, what goes with each of its members.
pub open spec fn released(n: Node) -> nat
    decreases n, 0nat,
{
    if n.is_reference {
        1
    } else {
        match n.value {
            Value::Array(items) => 1 + released_upto(items, items.len()),
            Value::Object(items) => 1 + released_upto(items, items.len()),
            _ => 1,
        }
    }
}

/// What goes with the first `count` of `items`.
pub open spec fn released_upto(items: Seq<Node>, count: nat) -> nat
    decreases items, count,
{
    if count == 0 || count > items.len() {
        0
    } else {
        released_upto(items, (count - 1) as nat) + released(items[count - 1])
    }
}

/// A count held to what a `u64` can say.
pub open spec fn held(count: nat) -> u64 {
    if count >= u64::MAX {
        u64::MAX
    } else {
        count as u64
    }
}

/// Counts the nodes that go with a tree.
fn count_released(item: &Json) -> (r: u64)
    ensures
        r == held(released(item@)),
    decreases item, 0nat,
{
    if item.is_reference {
        return 1;
    }
    let total: u64 = match &item.value {
        JsonValue::Array(items) => {
            proof {
                lemma_nodes_upto(*items, items.len() as nat);
            }
            count_all(items)
        },
        JsonValue::Object(items) => {
            proof {
                lemma_nodes_upto(*items, items.len() as nat);
            }
            count_all(items)
        },
        _ => 0,
    };
    if total == u64::MAX {
        total
    } else {
        total + 1
    }
}

/// Counts the nodes that go with the nodes of a vector.
fn count_all(items: &Vec<Json>) -> (r: u64)
    ensures
        r == held(released_upto(nodes_of(*items), items.len() as nat)),
    decreases items, 1nat,
{
    let mut total: u64 = 0;
    let mut i: usize = 0;
    proof {
        lemma_nodes_upto(*items, items.len() as nat);
    }
    while i < items.len()
        invariant
            i <= items.len(),
            nodes_of(*items).len() == items.len(),
            forall|k: int| 0 <= k < items.len() ==> (#[trigger] nodes_of(*items)[k]) == items[k]@,
            total == held(released_upto(nodes_of(*items), i as nat)),
        decreases items.len() - i,
    {
        proof {
            axiom_vec_index_decreases(*items, i as int);
            assert(nodes_of(*items)[i as int] == items[i as int]@);
        }
        let more = count_released(&items[i]);
        total = if more >= u64::MAX - total {
            u64::MAX
        } else {
            total + more
        };
        i += 1;
    }
    total
}

/// Destroys a tree, and tells how many nodes went with it: the node
/// itself and, unless it is a reference, its members and theirs. A count
/// beyond what a `u64` can say is told as the greatest `u64`.
pub fn cjson_delete(item: Json) -> (r: u64)
    ensures
        r == held(released(item@)),
{
    count_released(&item)
}

} // verus!
