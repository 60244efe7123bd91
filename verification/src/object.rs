//! Editing an object by key, and any container by the handle of a member.

use vstd::prelude::*;
use vstd::utf8::encode_utf8;
use crate::create::{
    cjson_create_array, cjson_create_bool, cjson_create_false, cjson_create_null,
    cjson_create_number, cjson_create_object, cjson_create_true,
};
use crate::edit::{
    count_members, find_handle, find_key, has_handle, has_key, index_of_handle, index_of_key,
    lemma_index_of_handle, lemma_index_of_key, lemma_linked_wf, lemma_relinked_wf,
    lemma_unlinked_wf, link_at, member_at, member_at_mut, name_bytes, relink_at, unlink_at,
    with_member,
};
use crate::error::{is_nul_error, is_type_mismatch, type_mismatch, JsonError};
use crate::node::{textual, Json, JsonValue, Node, Value};
use crate::text::{first_nul, nul_free};

verus! {

/// Looks for the first member of a container known under `name`.
fn lookup(parent: &Json, name: &[u8], case_sensitive: bool) -> (r: Option<usize>)
    ensures
        match r {
            Some(at) => has_key(parent@.members(), name@, case_sensitive) && at == index_of_key(
                parent@.members(),
                name@,
                case_sensitive,
            ) && at < parent@.members().len(),
            None => !has_key(parent@.members(), name@, case_sensitive),
        },
{
    let found = match &parent.value {
        JsonValue::Array(items) => find_key(items, name, case_sensitive),
        JsonValue::Object(items) => find_key(items, name, case_sensitive),
        _ => None,
    };
    proof {
        if let Some(at) = found {
            lemma_index_of_key(parent@.members(), name@, case_sensitive, at as int);
        }
    }
    found
}

/// Looks for the first member of a container with the handle.
fn lookup_handle(parent: &Json, handle: u64) -> (r: Option<usize>)
    ensures
        match r {
            Some(at) => has_handle(parent@.members(), handle) && at == index_of_handle(
                parent@.members(),
                handle,
            ) && at < parent@.members().len(),
            None => !has_handle(parent@.members(), handle),
        },
{
    let found = match &parent.value {
        JsonValue::Array(items) => find_handle(items, handle),
        JsonValue::Object(items) => find_handle(items, handle),
        _ => None,
    };
    proof {
        if let Some(at) = found {
            lemma_index_of_handle(parent@.members(), handle, at as int);
        }
    }
    found
}

/// Whether a member of `object` is known under `string`, up to ASCII case.
pub fn cjson_has_object_item(object: &Json, string: &str) -> (r: Result<bool, JsonError>)
    ensures
        nul_free(encode_utf8(string@)) ==> r == Ok::<bool, JsonError>(
            has_key(object@.members(), encode_utf8(string@), false),
        ),
        !nul_free(encode_utf8(string@)) ==> is_nul_error(r, encode_utf8(string@)),
{
    match name_bytes(string) {
        Ok(name) => Ok(lookup(object, name.as_slice(), false).is_some()),
        Err(e) => Err(e),
    }
}

/// What a search by key hands out: the first member known under `name`,
/// and the absence of one as an error.
pub open spec fn found_by_key(
    parent: Node,
    name: Seq<u8>,
    case_sensitive: bool,
    r: Result<Node, JsonError>,
) -> bool {
    if !nul_free(name) {
        r matches Err(JsonError::CStringError(at)) && first_nul(name, at as int)
    } else if has_key(parent.members(), name, case_sensitive) {
        r == Ok::<Node, JsonError>(
            parent.members()[index_of_key(parent.members(), name, case_sensitive)],
        )
    } else {
        r == Err::<Node, JsonError>(JsonError::NullPointer)
    }
}

/// The view of what a search handed out.
pub open spec fn viewed(r: Result<&Json, JsonError>) -> Result<Node, JsonError> {
    match r {
        Ok(item) => Ok(item@),
        Err(e) => Err(e),
    }
}

fn get_by_key<'a>(object: &'a Json, string: &str, case_sensitive: bool) -> (r: Result<
    &'a Json,
    JsonError,
>)
    ensures
        found_by_key(object@, encode_utf8(string@), case_sensitive, viewed(r)),
{
    match name_bytes(string) {
        Ok(name) => match lookup(object, name.as_slice(), case_sensitive) {
            Some(at) => Ok(member_at(object, at)),
            None => Err(JsonError::NullPointer),
        },
        Err(e) => Err(e),
    }
}

/// The first member of `object` known under `string` up to ASCII case.
pub fn cjson_get_object_item<'a>(object: &'a Json, string: &str) -> (r: Result<
    &'a Json,
    JsonError,
>)
    ensures
        found_by_key(object@, encode_utf8(string@), false, viewed(r)),
{
    get_by_key(object, string, false)
}

/// The first member of `object` known under exactly `string`.
pub fn cjson_get_object_item_case_sensitive<'a>(object: &'a Json, string: &str) -> (r: Result<
    &'a Json,
    JsonError,
>)
    ensures
        found_by_key(object@, encode_utf8(string@), true, viewed(r)),
{
    get_by_key(object, string, true)
}

/// What a search by key that hands the member out to be changed leaves of
/// the container: the member in its place, as it has become.
pub open spec fn changed_by_key(
    before: Node,
    after: Node,
    name: Seq<u8>,
    case_sensitive: bool,
    member_after: Option<Node>,
) -> bool {
    match member_after {
        Some(m) => after == with_member(
            before,
            index_of_key(before.members(), name, case_sensitive),
            m,
        ),
        None => after == before,
    }
}

fn get_by_key_mut<'a>(object: &'a mut Json, string: &str, case_sensitive: bool) -> (r: Result<
    &'a mut Json,
    JsonError,
>)
    ensures
        match r {
            Ok(item) => found_by_key(
                old(object)@,
                encode_utf8(string@),
                case_sensitive,
                Ok(item@),
            ) && changed_by_key(
                old(object)@,
                final(object)@,
                encode_utf8(string@),
                case_sensitive,
                Some(final(item)@),
            ),
            Err(e) => found_by_key(old(object)@, encode_utf8(string@), case_sensitive, Err(e))
                && final(object)@ == old(object)@,
        },
{
    match name_bytes(string) {
        Ok(name) => match lookup(object, name.as_slice(), case_sensitive) {
            Some(at) => Ok(member_at_mut(object, at)),
            None => Err(JsonError::NullPointer),
        },
        Err(e) => Err(e),
    }
}

/// The first member of `object` known under `string` up to ASCII case, to
/// change in place.
pub fn cjson_get_object_item_mut<'a>(object: &'a mut Json, string: &str) -> (r: Result<
    &'a mut Json,
    JsonError,
>)
    ensures
        match r {
            Ok(item) => found_by_key(old(object)@, encode_utf8(string@), false, Ok(item@))
                && changed_by_key(
                old(object)@,
                final(object)@,
                encode_utf8(string@),
                false,
                Some(final(item)@),
            ),
            Err(e) => found_by_key(old(object)@, encode_utf8(string@), false, Err(e)) && final(object)@ == old(object)@,
        },
{
    get_by_key_mut(object, string, false)
}

/// The first member of `object` known under exactly `string`, to change in
/// place.
pub fn cjson_get_object_item_case_sensitive_mut<'a>(object: &'a mut Json, string: &str) -> (r:
    Result<&'a mut Json, JsonError>)
    ensures
        match r {
            Ok(item) => found_by_key(old(object)@, encode_utf8(string@), true, Ok(item@))
                && changed_by_key(
                old(object)@,
                final(object)@,
                encode_utf8(string@),
                true,
                Some(final(item)@),
            ),
            Err(e) => found_by_key(old(object)@, encode_utf8(string@), true, Err(e)) && final(object)@ == old(object)@,
        },
{
    get_by_key_mut(object, string, true)
}

/// What adding `member` under `name` to a container makes of it, and what
/// it answers: the member at the end where the container is an object, the
/// name holds no zero byte and the object has room; nothing changed and the
/// reason otherwise.
pub open spec fn added_by_key(
    before: Node,
    after: Node,
    name: Seq<u8>,
    member: Node,
    r: Result<bool, JsonError>,
) -> bool {
    if !(before.value is Object) {
        is_type_mismatch(r, "cannot add item to a non-object Json item"@) && after == before
    } else if !nul_free(name) {
        is_nul_error(r, name) && after == before
    } else if !before.has_room() {
        r == Ok::<bool, JsonError>(false) && after == before
    } else {
        r == Ok::<bool, JsonError>(true) && after == before.linked(
            before.members().len() as int,
            member,
        )
    }
}

fn add_by_key(object: &mut Json, string: &str, item: Json, key_is_const: bool) -> (r: Result<
    bool,
    JsonError,
>)
    ensures
        added_by_key(
            old(object)@,
            final(object)@,
            encode_utf8(string@),
            item@.as_member(encode_utf8(string@), key_is_const),
            r,
        ),
        old(object)@.wf() && item@.wf() ==> final(object)@.wf(),
        textual(old(object)@) && textual(item@) ==> textual(final(object)@),
{
    match &object.value {
        JsonValue::Object(_) => match name_bytes(string) {
            Ok(name) => {
                if object.next_handle == u64::MAX {
                    return Ok(false);
                }
                let len = count_members(object);
                let mut item = item;
                item.key = Some(name);
                item.key_is_const = key_is_const;
                proof {
                    if object@.wf() && item@.wf() {
                        lemma_linked_wf(object@, len as int, item@);
                    }
                    if textual(object@) && textual(item@) {
                        crate::utf8::lemma_linked_textual(object@, len as int, item@);
                    }
                }
                link_at(object, len, item);
                Ok(true)
            },
            Err(e) => Err(e),
        },
        _ => type_mismatch("cannot add item to a non-object Json item"),
    }
}

/// Appends `item` to an object under a copy of the key `string`.
pub fn cjson_add_item_to_object(object: &mut Json, string: &str, item: Json) -> (r: Result<
    bool,
    JsonError,
>)
    ensures
        added_by_key(
            old(object)@,
            final(object)@,
            encode_utf8(string@),
            item@.as_member(encode_utf8(string@), false),
            r,
        ),
        old(object)@.wf() && item@.wf() ==> final(object)@.wf(),
        textual(old(object)@) && textual(item@) ==> textual(final(object)@),
{
    add_by_key(object, string, item, false)
}

/// Appends `item` to an object under the key `name`, which is marked as a
/// constant of the caller.
pub fn cjson_add_item_to_object_cs(object: &mut Json, name: &str, item: Json) -> (r: Result<
    bool,
    JsonError,
>)
    ensures
        added_by_key(
            old(object)@,
            final(object)@,
            encode_utf8(name@),
            item@.as_member(encode_utf8(name@), true),
            r,
        ),
        old(object)@.wf() && item@.wf() ==> final(object)@.wf(),
        textual(old(object)@) && textual(item@) ==> textual(final(object)@),
{
    add_by_key(object, name, item, true)
}

/// Appends to an object, under the key `string`, a reference to `item`: a
/// copy of it that is marked as not owning what it holds.
pub fn cjson_add_item_reference_to_object(object: &mut Json, string: &str, item: &Json) -> (r:
    Result<bool, JsonError>)
    ensures
        added_by_key(
            old(object)@,
            final(object)@,
            encode_utf8(string@),
            item@.as_reference().as_member(encode_utf8(string@), false),
            r,
        ),
        old(object)@.wf() && item@.wf() ==> final(object)@.wf(),
        textual(old(object)@) && textual(item@) ==> textual(final(object)@),
{
    match &object.value {
        JsonValue::Object(_) => {
            let mut shell = item.snapshot();
            shell.key = None;
            shell.key_is_const = false;
            shell.is_reference = true;
            add_by_key(object, string, shell, false)
        },
        _ => type_mismatch("cannot add item to a non-object Json item"),
    }
}

/// What replacing the first member known under `name` makes of a
/// container, and what it answers.
pub open spec fn replaced_by_key(
    before: Node,
    after: Node,
    name: Seq<u8>,
    case_sensitive: bool,
    member: Node,
    r: Result<bool, JsonError>,
) -> bool {
    if !(before.value is Object) {
        is_type_mismatch(r, "cannot replace item in a non-object Json item"@) && after == before
    } else if !nul_free(name) {
        is_nul_error(r, name) && after == before
    } else if !has_key(before.members(), name, case_sensitive) || !before.has_room() {
        r == Ok::<bool, JsonError>(false) && after == before
    } else {
        r == Ok::<bool, JsonError>(true) && after == before.relinked(
            index_of_key(before.members(), name, case_sensitive),
            member,
        )
    }
}

fn replace_by_key(object: &mut Json, string: &str, newitem: Json, case_sensitive: bool) -> (r:
    Result<bool, JsonError>)
    ensures
        replaced_by_key(
            old(object)@,
            final(object)@,
            encode_utf8(string@),
            case_sensitive,
            newitem@.as_member(encode_utf8(string@), false),
            r,
        ),
        old(object)@.wf() && newitem@.wf() ==> final(object)@.wf(),
        textual(old(object)@) && textual(newitem@) ==> textual(final(object)@),
{
    match &object.value {
        JsonValue::Object(_) => match name_bytes(string) {
            Ok(name) => {
                if object.next_handle == u64::MAX {
                    return Ok(false);
                }
                match lookup(object, name.as_slice(), case_sensitive) {
                    Some(at) => {
                        let mut item = newitem;
                        item.key = Some(name);
                        item.key_is_const = false;
                        proof {
                            if object@.wf() && item@.wf() {
                                lemma_relinked_wf(object@, at as int, item@);
                            }
                            if textual(object@) && textual(item@) {
                                crate::utf8::lemma_relinked_textual(object@, at as int, item@);
                            }
                        }
                        let _ = relink_at(object, at, item);
                        Ok(true)
                    },
                    None => Ok(false),
                }
            },
            Err(e) => Err(e),
        },
        _ => type_mismatch("cannot replace item in a non-object Json item"),
    }
}

/// Puts `newitem`, under the key `string`, in the place of the first member
/// of an object known under `string` up to ASCII case; the old member is
/// destroyed.
pub fn cjson_replace_item_in_object(object: &mut Json, string: &str, newitem: Json) -> (r: Result<
    bool,
    JsonError,
>)
    ensures
        replaced_by_key(
            old(object)@,
            final(object)@,
            encode_utf8(string@),
            false,
            newitem@.as_member(encode_utf8(string@), false),
            r,
        ),
        old(object)@.wf() && newitem@.wf() ==> final(object)@.wf(),
        textual(old(object)@) && textual(newitem@) ==> textual(final(object)@),
{
    replace_by_key(object, string, newitem, false)
}

/// Puts `newitem`, under the key `string`, in the place of the first member
/// of an object known under exactly `string`; the old member is destroyed.
pub fn cjson_replace_item_in_object_case_sensitive(
    object: &mut Json,
    string: &str,
    newitem: Json,
) -> (r: Result<bool, JsonError>)
    ensures
        replaced_by_key(
            old(object)@,
            final(object)@,
            encode_utf8(string@),
            true,
            newitem@.as_member(encode_utf8(string@), false),
            r,
        ),
        old(object)@.wf() && newitem@.wf() ==> final(object)@.wf(),
        textual(old(object)@) && textual(newitem@) ==> textual(final(object)@),
{
    replace_by_key(object, string, newitem, true)
}

/// What taking out the first member known under `name` up to ASCII case
/// makes of a container, and what it answers; `message` is what a node that
/// is no object is told.
pub open spec fn detached_by_key(
    before: Node,
    after: Node,
    name: Seq<u8>,
    message: Seq<char>,
    r: Result<Node, JsonError>,
) -> bool {
    if !(before.value is Object) {
        is_type_mismatch(r, message) && after == before
    } else if !nul_free(name) {
        is_nul_error(r, name) && after == before
    } else if !has_key(before.members(), name, false) {
        r == Err::<Node, JsonError>(JsonError::NullPointer) && after == before
    } else {
        r == Ok::<Node, JsonError>(before.members()[index_of_key(before.members(), name, false)])
            && after == before.unlinked(index_of_key(before.members(), name, false))
    }
}

/// The view of a node that was handed out.
pub open spec fn viewed_owned(r: Result<Json, JsonError>) -> Result<Node, JsonError> {
    match r {
        Ok(item) => Ok(item@),
        Err(e) => Err(e),
    }
}

/// Takes the first member known under `string` up to ASCII case out of an
/// object and hands it to the caller.
pub fn cjson_detach_item_from_object(object: &mut Json, string: &str) -> (r: Result<
    Json,
    JsonError,
>)
    ensures
        detached_by_key(
            old(object)@,
            final(object)@,
            encode_utf8(string@),
            "cannot detach item from a non-object Json item"@,
            viewed_owned(r),
        ),
        old(object)@.wf() ==> final(object)@.wf() && (r matches Ok(item) ==> item@.wf()),
        textual(old(object)@) ==> textual(final(object)@) && (r matches Ok(item) ==> textual(item@)),
{
    match &object.value {
        JsonValue::Object(_) => match name_bytes(string) {
            Ok(name) => match lookup(object, name.as_slice(), false) {
                Some(at) => {
                    proof {
                        if object@.wf() {
                            lemma_unlinked_wf(object@, at as int);
                        }
                        if textual(object@) {
                            crate::utf8::lemma_unlinked_textual(object@, at as int);
                        }
                    }
                    Ok(unlink_at(object, at))
                },
                None => Err(JsonError::NullPointer),
            },
            Err(e) => Err(e),
        },
        _ => type_mismatch("cannot detach item from a non-object Json item"),
    }
}

/// What destroying the first member known under `name` up to ASCII case
/// makes of a container, and what it answers.
pub open spec fn deleted_by_key(
    before: Node,
    after: Node,
    name: Seq<u8>,
    r: Result<(), JsonError>,
) -> bool {
    if !(before.value is Object) {
        is_type_mismatch(r, "cannot delete item from a non-object Json item"@) && after == before
    } else if !nul_free(name) {
        is_nul_error(r, name) && after == before
    } else if !has_key(before.members(), name, false) {
        r == Err::<(), JsonError>(JsonError::NullPointer) && after == before
    } else {
        r is Ok && after == before.unlinked(index_of_key(before.members(), name, false))
    }
}

/// Takes the first member known under `string` up to ASCII case out of an
/// object and destroys it.
pub fn cjson_delete_item_from_object(object: &mut Json, string: &str) -> (r: Result<
    (),
    JsonError,
>)
    ensures
        deleted_by_key(old(object)@, final(object)@, encode_utf8(string@), r),
        old(object)@.wf() ==> final(object)@.wf(),
        textual(old(object)@) ==> textual(final(object)@),
{
    match cjson_detach_item_from_object(object, string) {
        Ok(_) => Ok(()),
        Err(JsonError::TypeMismatch(_)) => type_mismatch(
            "cannot delete item from a non-object Json item",
        ),
        Err(e) => Err(e),
    }
}

/// Takes the member with the handle `item` out of a container and hands it
/// to the caller; `None`, and nothing changed, where no member has it.
pub fn cjson_detach_item_via_pointer(parent: &mut Json, item: u64) -> (r: Option<Json>)
    ensures
        has_handle(old(parent)@.members(), item) ==> (r matches Some(member) && member@ == old(
            parent,
        )@.members()[index_of_handle(old(parent)@.members(), item)]) && final(parent)@ == old(
            parent,
        )@.unlinked(index_of_handle(old(parent)@.members(), item)),
        !has_handle(old(parent)@.members(), item) ==> r is None && final(parent)@ == old(parent)@,
        old(parent)@.wf() ==> final(parent)@.wf() && (r matches Some(member) ==> member@.wf()),
        textual(old(parent)@) ==> textual(final(parent)@) && (r matches Some(member) ==> textual(member@)),
{
    match lookup_handle(parent, item) {
        Some(at) => {
            proof {
                if parent@.wf() {
                    lemma_unlinked_wf(parent@, at as int);
                }
                if textual(parent@) {
                    crate::utf8::lemma_unlinked_textual(parent@, at as int);
                }
            }
            Some(unlink_at(parent, at))
        },
        None => None,
    }
}

/// The node as it takes the place of `replaced` in `container`: under the
/// key of `replaced` in an object, without a key in an array.
pub open spec fn in_place_of(item: Node, container: Node, replaced: Node) -> Node {
    if container.value is Object {
        Node { key: replaced.key, key_is_const: replaced.key_is_const, ..item }
    } else {
        item.as_element()
    }
}

/// Puts `replacement` in the place of the member with the handle `item`;
/// the old member is destroyed. `false`, and nothing changed, where no
/// member has the handle or the container has no room.
pub fn cjson_replace_item_via_pointer(parent: &mut Json, item: u64, replacement: Json) -> (r: bool)
    ensures
        r == (has_handle(old(parent)@.members(), item) && old(parent)@.has_room()),
        r ==> final(parent)@ == old(parent)@.relinked(
            index_of_handle(old(parent)@.members(), item),
            in_place_of(
                replacement@,
                old(parent)@,
                old(parent)@.members()[index_of_handle(old(parent)@.members(), item)],
            ),
        ),
        !r ==> final(parent)@ == old(parent)@,
        old(parent)@.wf() && replacement@.wf() ==> final(parent)@.wf(),
        textual(old(parent)@) && textual(replacement@) ==> textual(final(parent)@),
{
    if parent.next_handle == u64::MAX {
        return false;
    }
    match lookup_handle(parent, item) {
        Some(at) => {
            let mut new_item = replacement;
            match &parent.value {
                JsonValue::Object(_) => {
                    let replaced = member_at(parent, at);
                    new_item.key = crate::node::copy_key(&replaced.key);
                    new_item.key_is_const = replaced.key_is_const;
                },
                _ => {
                    new_item.key = None;
                    new_item.key_is_const = false;
                },
            }
            proof {
                if parent@.wf() && replacement@.wf() {
                    assert(parent@.members()[at as int].wf());
                    lemma_relinked_wf(parent@, at as int, new_item@);
                }
                if textual(parent@) && textual(replacement@) {
                    assert(textual(parent@.members()[at as int]));
                    crate::utf8::lemma_relinked_textual(parent@, at as int, new_item@);
                }
            }
            let _ = relink_at(parent, at, new_item);
            true
        },
        None => false,
    }
}

/// A new member was appended to an object: `member` is the member as it was
/// made, a fresh node that holds `value` under the key `name` and the
/// object's next handle; the object holds it as the caller left it,
/// `member_after`.
pub open spec fn member_added(
    before: Node,
    after: Node,
    name: Seq<u8>,
    value: Value,
    member: Node,
    member_after: Node,
) -> bool {
    &&& before.value is Object
    &&& nul_free(name)
    &&& before.has_room()
    &&& member == Node { handle: before.next_handle, ..Node::fresh(value).as_member(name, false) }
    &&& after == before.with_members(
        before.members().push(member_after),
        (before.next_handle + 1) as u64,
    )
}

/// No member was appended, and `e` says why: the node is no object, the
/// name holds a zero byte, or the object has no room.
pub open spec fn member_refused(before: Node, after: Node, name: Seq<u8>, e: JsonError) -> bool {
    &&& after == before
    &&& if !(before.value is Object) {
        e matches JsonError::TypeMismatch(m) && m@ == "cannot add item to a non-object Json item"@
    } else if !nul_free(name) {
        e matches JsonError::CStringError(at) && first_nul(name, at as int)
    } else {
        !before.has_room() && e == JsonError::NullPointer
    }
}

/// An object to which a member was appended and then changed in place is
/// well formed if it was before, the member is, and the member kept its key
/// and its handle.
pub proof fn law_member_added_wf(
    before: Node,
    after: Node,
    name: Seq<u8>,
    value: Value,
    member: Node,
    member_after: Node,
)
    requires
        member_added(before, after, name, value, member, member_after),
        before.wf(),
        member_after.wf(),
        member_after.key == member.key,
        member_after.handle == member.handle,
    ensures
        after.wf(),
{
    let item = Node { value: Value::Null, next_handle: 0, ..member_after };
    assert(item.wf());
    lemma_linked_wf(before, before.members().len() as int, item);
    let mid = before.linked(before.members().len() as int, item);
    assert(mid.members() =~= before.members().push(item));
    crate::edit::lemma_with_member_wf(mid, before.members().len() as int, member_after);
    assert(mid.members().update(before.members().len() as int, member_after)
        =~= before.members().push(member_after));
}

/// An object to which a member was appended and then changed in place is
/// textual if it was before and the member is.
pub proof fn law_member_added_textual(
    before: Node,
    after: Node,
    name: Seq<u8>,
    value: Value,
    member: Node,
    member_after: Node,
)
    requires
        member_added(before, after, name, value, member, member_after),
        textual(before),
        textual(member_after),
    ensures
        textual(after),
{
    let items = after.members();
    assert forall|i: int| 0 <= i < items.len() implies textual(#[trigger] items[i]) by {
        if i < before.members().len() {
            assert(items[i] == before.members()[i]);
        }
    }
}

/// Appends a fresh node under `name`, and hands it out to be changed.
fn add_fresh<'a>(object: &'a mut Json, name: &str, item: Json, Ghost(value): Ghost<Value>) -> (r:
    Result<&'a mut Json, JsonError>)
    requires
        item@ == Node::fresh(value),
    ensures
        match r {
            Ok(member) => member_added(
                old(object)@,
                final(object)@,
                encode_utf8(name@),
                value,
                member@,
                final(member)@,
            ),
            Err(e) => member_refused(old(object)@, final(object)@, encode_utf8(name@), e),
        },
{
    match &object.value {
        JsonValue::Object(_) => match name_bytes(name) {
            Ok(key) => {
                if object.next_handle == u64::MAX {
                    return Err(JsonError::NullPointer);
                }
                let len = count_members(object);
                let mut item = item;
                item.key = Some(key);
                item.key_is_const = false;
                link_at(object, len, item);
                let ghost mid = object@;
                let r = member_at_mut(object, len);
                proof {
                    assert(mid.members().update(len as int, final(r)@) =~= old(
                        object,
                    )@.members().push(final(r)@));
                }
                Ok(r)
            },
            Err(e) => Err(e),
        },
        _ => type_mismatch("cannot add item to a non-object Json item"),
    }
}

/// Appends null to an object under `name`, and hands the new member out.
pub fn cjson_add_null_to_object<'a>(object: &'a mut Json, name: &str) -> (r: Result<
    &'a mut Json,
    JsonError,
>)
    ensures
        match r {
            Ok(member) => member_added(
                old(object)@,
                final(object)@,
                encode_utf8(name@),
                Value::Null,
                member@,
                final(member)@,
            ),
            Err(e) => member_refused(old(object)@, final(object)@, encode_utf8(name@), e),
        },
{
    add_fresh(object, name, cjson_create_null(), Ghost(Value::Null))
}

/// Appends true to an object under `name`, and hands the new member out.
pub fn cjson_add_true_to_object<'a>(object: &'a mut Json, name: &str) -> (r: Result<
    &'a mut Json,
    JsonError,
>)
    ensures
        match r {
            Ok(member) => member_added(
                old(object)@,
                final(object)@,
                encode_utf8(name@),
                Value::Bool(true),
                member@,
                final(member)@,
            ),
            Err(e) => member_refused(old(object)@, final(object)@, encode_utf8(name@), e),
        },
{
    add_fresh(object, name, cjson_create_true(), Ghost(Value::Bool(true)))
}

/// Appends false to an object under `name`, and hands the new member out.
pub fn cjson_add_false_to_object<'a>(object: &'a mut Json, name: &str) -> (r: Result<
    &'a mut Json,
    JsonError,
>)
    ensures
        match r {
            Ok(member) => member_added(
                old(object)@,
                final(object)@,
                encode_utf8(name@),
                Value::Bool(false),
                member@,
                final(member)@,
            ),
            Err(e) => member_refused(old(object)@, final(object)@, encode_utf8(name@), e),
        },
{
    add_fresh(object, name, cjson_create_false(), Ghost(Value::Bool(false)))
}

/// Appends `boolean` to an object under `name`, and hands the new member
/// out.
pub fn cjson_add_bool_to_object<'a>(object: &'a mut Json, name: &str, boolean: bool) -> (r:
    Result<&'a mut Json, JsonError>)
    ensures
        match r {
            Ok(member) => member_added(
                old(object)@,
                final(object)@,
                encode_utf8(name@),
                Value::Bool(boolean),
                member@,
                final(member)@,
            ),
            Err(e) => member_refused(old(object)@, final(object)@, encode_utf8(name@), e),
        },
{
    add_fresh(object, name, cjson_create_bool(boolean), Ghost(Value::Bool(boolean)))
}

/// Appends to an object, under `name`, the number whose double has the bits
/// `number`, and hands the new member out.
pub fn cjson_add_number_to_object<'a>(object: &'a mut Json, name: &str, number: u64) -> (r:
    Result<&'a mut Json, JsonError>)
    ensures
        match r {
            Ok(member) => member_added(
                old(object)@,
                final(object)@,
                encode_utf8(name@),
                Value::Number(number),
                member@,
                final(member)@,
            ),
            Err(e) => member_refused(old(object)@, final(object)@, encode_utf8(name@), e),
        },
{
    add_fresh(object, name, cjson_create_number(number), Ghost(Value::Number(number)))
}

/// Appends an object without members to an object under `name`, and hands
/// the new member out.
pub fn cjson_add_object_to_object<'a>(object: &'a mut Json, name: &str) -> (r: Result<
    &'a mut Json,
    JsonError,
>)
    ensures
        match r {
            Ok(member) => member_added(
                old(object)@,
                final(object)@,
                encode_utf8(name@),
                Value::Object(Seq::empty()),
                member@,
                final(member)@,
            ),
            Err(e) => member_refused(old(object)@, final(object)@, encode_utf8(name@), e),
        },
{
    add_fresh(object, name, cjson_create_object(), Ghost(Value::Object(Seq::empty())))
}

/// Appends an array without members to an object under `name`, and hands
/// the new member out.
pub fn cjson_add_array_to_object<'a>(object: &'a mut Json, name: &str) -> (r: Result<
    &'a mut Json,
    JsonError,
>)
    ensures
        match r {
            Ok(member) => member_added(
                old(object)@,
                final(object)@,
                encode_utf8(name@),
                Value::Array(Seq::empty()),
                member@,
                final(member)@,
            ),
            Err(e) => member_refused(old(object)@, final(object)@, encode_utf8(name@), e),
        },
{
    add_fresh(object, name, cjson_create_array(), Ghost(Value::Array(Seq::empty())))
}

/// No member was appended, and `e` says why: what [`member_refused`] says,
/// or, where that gives no reason, the text to add holds a zero byte.
pub open spec fn text_member_refused(
    before: Node,
    after: Node,
    name: Seq<u8>,
    text: Seq<u8>,
    e: JsonError,
) -> bool {
    if before.value is Object && nul_free(name) && !nul_free(text) {
        after == before && (e matches JsonError::CStringError(at) && first_nul(text, at as int))
    } else {
        member_refused(before, after, name, e)
    }
}

/// Appends a copy of `string` to an object under `name`, and hands the new
/// member out.
pub fn cjson_add_string_to_object<'a>(object: &'a mut Json, name: &str, string: &str) -> (r:
    Result<&'a mut Json, JsonError>)
    ensures
        match r {
            Ok(member) => nul_free(encode_utf8(string@)) && member_added(
                old(object)@,
                final(object)@,
                encode_utf8(name@),
                Value::String(encode_utf8(string@)),
                member@,
                final(member)@,
            ),
            Err(e) => text_member_refused(
                old(object)@,
                final(object)@,
                encode_utf8(name@),
                encode_utf8(string@),
                e,
            ),
        },
{
    match &object.value {
        JsonValue::Object(_) => match name_bytes(name) {
            Ok(_) => match name_bytes(string) {
                Ok(text) => add_fresh(
                    object,
                    name,
                    Json::new(JsonValue::String(text)),
                    Ghost(Value::String(encode_utf8(string@))),
                ),
                Err(e) => Err(e),
            },
            Err(e) => Err(e),
        },
        _ => type_mismatch("cannot add item to a non-object Json item"),
    }
}

/// Appends `raw`, which is printed as it stands, to an object under `name`,
/// and hands the new member out.
pub fn cjson_add_raw_to_object<'a>(object: &'a mut Json, name: &str, raw: &str) -> (r: Result<
    &'a mut Json,
    JsonError,
>)
    ensures
        match r {
            Ok(member) => nul_free(encode_utf8(raw@)) && member_added(
                old(object)@,
                final(object)@,
                encode_utf8(name@),
                Value::Raw(encode_utf8(raw@)),
                member@,
                final(member)@,
            ),
            Err(e) => text_member_refused(
                old(object)@,
                final(object)@,
                encode_utf8(name@),
                encode_utf8(raw@),
                e,
            ),
        },
{
    match &object.value {
        JsonValue::Object(_) => match name_bytes(name) {
            Ok(_) => match name_bytes(raw) {
                Ok(text) => add_fresh(
                    object,
                    name,
                    Json::new(JsonValue::Raw(text)),
                    Ghost(Value::Raw(encode_utf8(raw@))),
                ),
                Err(e) => Err(e),
            },
            Err(e) => Err(e),
        },
        _ => type_mismatch("cannot add item to a non-object Json item"),
    }
}

} // verus!
