//! Editing a tree: the operations on the members of an array or an object.
//!
//! Each operation either does all of its work or leaves the container as it
//! was, and says which.

use vstd::prelude::*;
use vstd::utf8::{encode_utf8, valid_utf8};
use crate::error::{is_nul_error, is_type_mismatch, type_mismatch, JsonError};
use crate::node::{
    distinct_handles, lemma_nodes_upto, nodes_of, nodes_upto, textual, Json, JsonValue, Node,
};
use crate::text::{bytes_match, bytes_of, find_nul, nul_free, same_text};

verus! {

/// `which` addresses one of `len` members.
pub open spec fn in_range(which: i32, len: nat) -> bool {
    0 <= which < len
}

/// The member is known under `name`.
pub open spec fn key_matches(member: Node, name: Seq<u8>, case_sensitive: bool) -> bool {
    member.key matches Some(k) && same_text(k, name, case_sensitive)
}

/// Some member is known under `name`.
pub open spec fn has_key(items: Seq<Node>, name: Seq<u8>, case_sensitive: bool) -> bool {
    exists|i: int| 0 <= i < items.len() && key_matches(#[trigger] items[i], name, case_sensitive)
}

/// `at` is the place of the first member known under `name`.
pub open spec fn first_with_key(
    items: Seq<Node>,
    name: Seq<u8>,
    case_sensitive: bool,
    at: int,
) -> bool {
    &&& 0 <= at < items.len()
    &&& key_matches(items[at], name, case_sensitive)
    &&& forall|i: int| 0 <= i < at ==> !key_matches(#[trigger] items[i], name, case_sensitive)
}

/// The place of the first member known under `name`, where there is one.
pub open spec fn index_of_key(items: Seq<Node>, name: Seq<u8>, case_sensitive: bool) -> int {
    choose|at: int| first_with_key(items, name, case_sensitive, at)
}

/// Some member has the handle.
pub open spec fn has_handle(items: Seq<Node>, handle: u64) -> bool {
    exists|i: int| 0 <= i < items.len() && (#[trigger] items[i]).handle == handle
}

/// `at` is the place of the first member with the handle.
pub open spec fn first_with_handle(items: Seq<Node>, handle: u64, at: int) -> bool {
    &&& 0 <= at < items.len()
    &&& items[at].handle == handle
    &&& forall|i: int| 0 <= i < at ==> (#[trigger] items[i]).handle != handle
}

/// The place of the first member with the handle, where there is one.
pub open spec fn index_of_handle(items: Seq<Node>, handle: u64) -> int {
    choose|at: int| first_with_handle(items, handle, at)
}

/// There is one first member under a name at most.
pub proof fn lemma_index_of_key(items: Seq<Node>, name: Seq<u8>, case_sensitive: bool, at: int)
    requires
        first_with_key(items, name, case_sensitive, at),
    ensures
        has_key(items, name, case_sensitive),
        index_of_key(items, name, case_sensitive) == at,
{
    let other = index_of_key(items, name, case_sensitive);
    assert(first_with_key(items, name, case_sensitive, other));
    if other < at {
        assert(!key_matches(items[other], name, case_sensitive));
    }
    if at < other {
        assert(!key_matches(items[at], name, case_sensitive));
    }
}

/// There is one first member with a handle at most.
pub proof fn lemma_index_of_handle(items: Seq<Node>, handle: u64, at: int)
    requires
        first_with_handle(items, handle, at),
    ensures
        has_handle(items, handle),
        index_of_handle(items, handle) == at,
{
    let other = index_of_handle(items, handle);
    assert(first_with_handle(items, handle, other));
    if other < at {
        assert(items[other].handle != handle);
    }
    if at < other {
        assert(items[at].handle != handle);
    }
}

impl Node {
    /// A container can take one more member while it has a handle left to
    /// give.
    pub open spec fn has_room(self) -> bool {
        self.next_handle < u64::MAX
    }

    /// The container after `item` was linked in before the member at `at`
    /// (at the end, where `at` is the number of members). The new member has
    /// the container's next handle.
    pub open spec fn linked(self, at: int, item: Node) -> Node {
        self.with_members(
            self.members().insert(at, Node { handle: self.next_handle, ..item }),
            (self.next_handle + 1) as u64,
        )
    }

    /// The container after the member at `at` was taken out.
    pub open spec fn unlinked(self, at: int) -> Node {
        self.with_members(self.members().remove(at), self.next_handle)
    }

    /// The container after `item` took the place of the member at `at`. The
    /// new member has the container's next handle.
    pub open spec fn relinked(self, at: int, item: Node) -> Node {
        self.with_members(
            self.members().update(at, Node { handle: self.next_handle, ..item }),
            (self.next_handle + 1) as u64,
        )
    }

    /// The node as a member of `self`: under the key it is given in an
    /// object, without a key in an array.
    pub open spec fn shaped_for(self, container: Node, key: Option<Seq<u8>>, key_is_const: bool) -> Node {
        if container.value is Object {
            Node { key, key_is_const, ..self }
        } else {
            Node { key: None, key_is_const: false, ..self }
        }
    }
}

/// Linking a well-formed node into a well-formed container that has room
/// gives a well-formed container, where the node has a key exactly if the
/// container is an object.
pub proof fn lemma_linked_wf(parent: Node, at: int, item: Node)
    requires
        parent.wf(),
        item.wf(),
        parent.value.is_container(),
        parent.has_room(),
        0 <= at <= parent.members().len(),
        parent.value is Object <==> item.key is Some,
    ensures
        parent.linked(at, item).wf(),
{
    let old_items = parent.members();
    let new_item = Node { handle: parent.next_handle, ..item };
    let new_items = old_items.insert(at, new_item);
    assert(new_item.wf());
    assert forall|i: int| 0 <= i < new_items.len() implies (#[trigger] new_items[i]).wf() && (
    new_items[i].key is Some <==> parent.value is Object) && new_items[i].handle < parent.next_handle
        + 1 by {
        if i < at {
            assert(new_items[i] == old_items[i]);
        } else if i > at {
            assert(new_items[i] == old_items[i - 1]);
        }
    }
    assert forall|i: int, j: int| 0 <= i < j < new_items.len() implies (#[trigger] new_items[i]).handle
        != (#[trigger] new_items[j]).handle by {
        let oi = if i < at { i } else { i - 1 };
        let oj = if j < at { j } else { j - 1 };
        if i != at && j != at {
            assert(new_items[i] == old_items[oi]);
            assert(new_items[j] == old_items[oj]);
        } else if i == at {
            assert(new_items[j] == old_items[oj]);
        } else {
            assert(new_items[i] == old_items[oi]);
        }
    }
    assert(distinct_handles(new_items, (parent.next_handle + 1) as u64));
}

/// Taking a member out of a well-formed container leaves a well-formed
/// container, and the member is well formed.
pub proof fn lemma_unlinked_wf(parent: Node, at: int)
    requires
        parent.wf(),
        parent.value.is_container(),
        0 <= at < parent.members().len(),
    ensures
        parent.unlinked(at).wf(),
        parent.members()[at].wf(),
{
    let old_items = parent.members();
    let new_items = old_items.remove(at);
    assert forall|i: int| 0 <= i < new_items.len() implies (#[trigger] new_items[i]).wf() && (
    new_items[i].key is Some <==> parent.value is Object) && new_items[i].handle
        < parent.next_handle by {
        if i < at {
            assert(new_items[i] == old_items[i]);
        } else {
            assert(new_items[i] == old_items[i + 1]);
        }
    }
    assert forall|i: int, j: int| 0 <= i < j < new_items.len() implies (#[trigger] new_items[i]).handle
        != (#[trigger] new_items[j]).handle by {
        let oi = if i < at { i } else { i + 1 };
        let oj = if j < at { j } else { j + 1 };
        assert(new_items[i] == old_items[oi]);
        assert(new_items[j] == old_items[oj]);
    }
    assert(distinct_handles(new_items, parent.next_handle));
}

/// Putting a well-formed node in the place of a member of a well-formed
/// container that has room gives a well-formed container, where the node
/// has a key exactly if the container is an object.
pub proof fn lemma_relinked_wf(parent: Node, at: int, item: Node)
    requires
        parent.wf(),
        item.wf(),
        parent.value.is_container(),
        parent.has_room(),
        0 <= at < parent.members().len(),
        parent.value is Object <==> item.key is Some,
    ensures
        parent.relinked(at, item).wf(),
{
    let old_items = parent.members();
    let new_item = Node { handle: parent.next_handle, ..item };
    let new_items = old_items.update(at, new_item);
    assert(new_item.wf());
    assert forall|i: int| 0 <= i < new_items.len() implies (#[trigger] new_items[i]).wf() && (
    new_items[i].key is Some <==> parent.value is Object) && new_items[i].handle < parent.next_handle
        + 1 by {
        if i != at {
            assert(new_items[i] == old_items[i]);
        }
    }
    assert forall|i: int, j: int| 0 <= i < j < new_items.len() implies (#[trigger] new_items[i]).handle
        != (#[trigger] new_items[j]).handle by {
        if i != at {
            assert(new_items[i] == old_items[i]);
        }
        if j != at {
            assert(new_items[j] == old_items[j]);
        }
    }
    assert(distinct_handles(new_items, (parent.next_handle + 1) as u64));
}

/// Links `item` into a container before the member at `at`.
pub(crate) fn link_at(parent: &mut Json, at: usize, item: Json)
    requires
        old(parent)@.value.is_container(),
        old(parent)@.has_room(),
        at <= old(parent)@.members().len(),
    ensures
        final(parent)@ == old(parent)@.linked(at as int, item@),
{
    let mut item = item;
    item.handle = parent.next_handle;
    parent.next_handle = parent.next_handle + 1;
    proof {
        lemma_nodes_upto(parent.value.items(), parent.value.items().len() as nat);
    }
    match &mut parent.value {
        JsonValue::Array(items) => {
            items.insert(at, item);
        },
        JsonValue::Object(items) => {
            items.insert(at, item);
        },
        _ => {},
    }
    proof {
        lemma_nodes_upto(parent.value.items(), parent.value.items().len() as nat);
        assert(parent@.members() =~= old(parent)@.members().insert(
            at as int,
            Node { handle: old(parent)@.next_handle, ..item@ },
        ));
    }
}

/// Takes the member at `at` out of a container.
pub(crate) fn unlink_at(parent: &mut Json, at: usize) -> (r: Json)
    requires
        old(parent)@.value.is_container(),
        at < old(parent)@.members().len(),
    ensures
        r@ == old(parent)@.members()[at as int],
        final(parent)@ == old(parent)@.unlinked(at as int),
{
    proof {
        lemma_nodes_upto(parent.value.items(), parent.value.items().len() as nat);
    }
    let r = match &mut parent.value {
        JsonValue::Array(items) => items.remove(at),
        JsonValue::Object(items) => items.remove(at),
        _ => Json::new(JsonValue::Null),
    };
    proof {
        lemma_nodes_upto(parent.value.items(), parent.value.items().len() as nat);
        assert(parent@.members() =~= old(parent)@.members().remove(at as int));
    }
    r
}

/// Puts `item` in the place of the member at `at`, and hands the old member
/// back.
pub(crate) fn relink_at(parent: &mut Json, at: usize, item: Json) -> (r: Json)
    requires
        old(parent)@.value.is_container(),
        old(parent)@.has_room(),
        at < old(parent)@.members().len(),
    ensures
        r@ == old(parent)@.members()[at as int],
        final(parent)@ == old(parent)@.relinked(at as int, item@),
{
    let mut item = item;
    item.handle = parent.next_handle;
    parent.next_handle = parent.next_handle + 1;
    proof {
        lemma_nodes_upto(parent.value.items(), parent.value.items().len() as nat);
    }
    let r = match &mut parent.value {
        JsonValue::Array(items) => {
            let r = items.remove(at);
            items.insert(at, item);
            r
        },
        JsonValue::Object(items) => {
            let r = items.remove(at);
            items.insert(at, item);
            r
        },
        _ => item,
    };
    proof {
        lemma_nodes_upto(parent.value.items(), parent.value.items().len() as nat);
        assert(parent@.members() =~= old(parent)@.members().update(
            at as int,
            Node { handle: old(parent)@.next_handle, ..item@ },
        ));
    }
    r
}

/// The member at `at`, to read.
pub(crate) fn member_at(parent: &Json, at: usize) -> (r: &Json)
    requires
        parent@.value.is_container(),
        at < parent@.members().len(),
    ensures
        r@ == parent@.members()[at as int],
{
    proof {
        lemma_nodes_upto(parent.value.items(), parent.value.items().len() as nat);
    }
    match &parent.value {
        JsonValue::Array(items) => &items[at],
        JsonValue::Object(items) => &items[at],
        _ => parent,
    }
}

/// What a container becomes when the member at `at`, handed out to be
/// changed, has become `member`.
pub open spec fn with_member(parent: Node, at: int, member: Node) -> Node {
    parent.with_members(parent.members().update(at, member), parent.next_handle)
}

/// A container in which one member was changed is well formed if it was
/// before, the member is, and the member kept its key and its handle.
pub proof fn lemma_with_member_wf(parent: Node, at: int, member: Node)
    requires
        parent.wf(),
        member.wf(),
        parent.value.is_container(),
        0 <= at < parent.members().len(),
        member.key == parent.members()[at].key,
        member.handle == parent.members()[at].handle,
    ensures
        with_member(parent, at, member).wf(),
{
    let old_items = parent.members();
    let new_items = old_items.update(at, member);
    assert forall|i: int| 0 <= i < new_items.len() implies (#[trigger] new_items[i]).wf() && (
    new_items[i].key is Some <==> parent.value is Object) && new_items[i].handle
        < parent.next_handle by {
        if i != at {
            assert(new_items[i] == old_items[i]);
        } else {
            assert(old_items[at].handle < parent.next_handle);
        }
    }
    assert forall|i: int, j: int| 0 <= i < j < new_items.len() implies (#[trigger] new_items[i]).handle
        != (#[trigger] new_items[j]).handle by {
        assert(new_items[i].handle == old_items[i].handle);
        assert(new_items[j].handle == old_items[j].handle);
    }
    assert(distinct_handles(new_items, parent.next_handle));
}

/// The member at `at`, to change.
pub(crate) fn member_at_mut(parent: &mut Json, at: usize) -> (r: &mut Json)
    requires
        old(parent)@.value.is_container(),
        at < old(parent)@.members().len(),
    ensures
        r@ == old(parent)@.members()[at as int],
        final(parent)@ == with_member(old(parent)@, at as int, final(r)@),
{
    proof {
        lemma_nodes_upto(parent.value.items(), parent.value.items().len() as nat);
    }
    match &mut parent.value {
        JsonValue::Array(items) => {
            let ghost before = *items;
            let ghost after = *final(items);
            let r = &mut items[at];
            proof {
                lemma_nodes_upto(after, after.len() as nat);
                assert(nodes_upto(after, after.len() as nat) =~= nodes_upto(
                    before,
                    before.len() as nat,
                ).update(at as int, final(r)@));
            }
            r
        },
        JsonValue::Object(items) => {
            let ghost before = *items;
            let ghost after = *final(items);
            let r = &mut items[at];
            proof {
                lemma_nodes_upto(after, after.len() as nat);
                assert(nodes_upto(after, after.len() as nat) =~= nodes_upto(
                    before,
                    before.len() as nat,
                ).update(at as int, final(r)@));
            }
            r
        },
        _ => vstd::pervasive::unreached(),
    }
}

/// Looks for the first member known under `name`.
pub(crate) fn find_key(items: &Vec<Json>, name: &[u8], case_sensitive: bool) -> (r: Option<usize>)
    ensures
        match r {
            Some(at) => first_with_key(nodes_of(*items), name@, case_sensitive, at as int),
            None => !has_key(nodes_of(*items), name@, case_sensitive),
        },
{
    proof {
        lemma_nodes_upto(*items, items.len() as nat);
    }
    let mut i: usize = 0;
    while i < items.len()
        invariant
            i <= items.len(),
            nodes_of(*items).len() == items.len(),
            forall|k: int| 0 <= k < items.len() ==> (#[trigger] nodes_of(*items)[k]) == items[k]@,
            forall|k: int| 0 <= k < i ==> !key_matches(#[trigger] nodes_of(*items)[k], name@, case_sensitive),
        decreases items.len() - i,
    {
        let found = match &items[i].key {
            Some(k) => bytes_match(k.as_slice(), name, case_sensitive),
            None => false,
        };
        proof {
            assert(nodes_of(*items)[i as int] == items[i as int]@);
        }
        if found {
            return Some(i);
        }
        i += 1;
    }
    None
}

/// Looks for the first member with the handle.
pub(crate) fn find_handle(items: &Vec<Json>, handle: u64) -> (r: Option<usize>)
    ensures
        match r {
            Some(at) => first_with_handle(nodes_of(*items), handle, at as int),
            None => !has_handle(nodes_of(*items), handle),
        },
{
    proof {
        lemma_nodes_upto(*items, items.len() as nat);
    }
    let mut i: usize = 0;
    while i < items.len()
        invariant
            i <= items.len(),
            nodes_of(*items).len() == items.len(),
            forall|k: int| 0 <= k < items.len() ==> (#[trigger] nodes_of(*items)[k]) == items[k]@,
            forall|k: int| 0 <= k < i ==> (#[trigger] nodes_of(*items)[k]).handle != handle,
        decreases items.len() - i,
    {
        proof {
            assert(nodes_of(*items)[i as int] == items[i as int]@);
        }
        if items[i].handle == handle {
            return Some(i);
        }
        i += 1;
    }
    None
}

/// The bytes of a name, where none of them is zero.
pub fn name_bytes(name: &str) -> (r: Result<Vec<u8>, JsonError>)
    ensures
        match r {
            Ok(bytes) => bytes@ == encode_utf8(name@) && nul_free(bytes@) && valid_utf8(bytes@),
            Err(_) => is_nul_error(r, encode_utf8(name@)),
        },
{
    proof {
        vstd::utf8::encode_utf8_valid_utf8(name@);
    }
    let bytes = bytes_of(name);
    match find_nul(bytes.as_slice()) {
        Some(at) => Err(JsonError::CStringError(at)),
        None => Ok(bytes),
    }
}

/// The number of members of a container, and 0 for a scalar.
pub(crate) fn count_members(parent: &Json) -> (r: usize)
    ensures
        r == parent@.members().len(),
{
    match &parent.value {
        JsonValue::Array(items) => {
            proof {
                lemma_nodes_upto(*items, items.len() as nat);
            }
            items.len()
        },
        JsonValue::Object(items) => {
            proof {
                lemma_nodes_upto(*items, items.len() as nat);
            }
            items.len()
        },
        _ => 0,
    }
}

/// The place that an index addresses among `len` members, where it
/// addresses one.
pub(crate) fn place(which: i32, len: usize) -> (r: Option<usize>)
    ensures
        match r {
            Some(at) => in_range(which, len as nat) && at == which,
            None => !in_range(which, len as nat),
        },
{
    if which < 0 {
        None
    } else if (which as usize) < len {
        Some(which as usize)
    } else {
        None
    }
}

/// The number of members as an `i32`: the greatest `i32` where there are
/// more than it can say.
pub open spec fn size_as_i32(len: nat) -> i32 {
    if len <= i32::MAX {
        len as i32
    } else {
        i32::MAX
    }
}

/// The number of members of an array.
pub fn cjson_get_array_size(array: &Json) -> (r: Result<i32, JsonError>)
    ensures
        array@.value is Array ==> r == Ok::<i32, JsonError>(size_as_i32(array@.members().len())),
        !(array@.value is Array) ==> is_type_mismatch(
            r,
            "cannot get array size for a non-array Json item"@,
        ),
{
    match &array.value {
        JsonValue::Array(_) => {
            let len = count_members(array);
            if len <= i32::MAX as usize {
                Ok(len as i32)
            } else {
                Ok(i32::MAX)
            }
        },
        _ => type_mismatch("cannot get array size for a non-array Json item"),
    }
}

/// The member of an array at `index`, to read.
pub fn cjson_get_array_item(array: &Json, index: i32) -> (r: Result<&Json, JsonError>)
    ensures
        !(array@.value is Array) ==> is_type_mismatch(
            r,
            "cannot get array item from a non-array Json item"@,
        ),
        array@.value is Array && !in_range(index, array@.members().len()) ==> r == Err::<
            &Json,
            JsonError,
        >(JsonError::NullPointer),
        array@.value is Array && in_range(index, array@.members().len()) ==> (r matches Ok(item)
            && item@ == array@.members()[index as int]),
{
    match &array.value {
        JsonValue::Array(_) => match place(index, count_members(array)) {
            Some(at) => Ok(member_at(array, at)),
            None => Err(JsonError::NullPointer),
        },
        _ => type_mismatch("cannot get array item from a non-array Json item"),
    }
}

/// The member of an array at `index`, to change in place.
pub fn cjson_get_array_item_mut(array: &mut Json, index: i32) -> (r: Result<&mut Json, JsonError>)
    ensures
        !(old(array)@.value is Array) ==> is_type_mismatch(
            r,
            "cannot get array item from a non-array Json item"@,
        ) && final(array)@ == old(array)@,
        old(array)@.value is Array && !in_range(index, old(array)@.members().len()) ==> (r matches Err(
            JsonError::NullPointer,
        ) && final(array)@ == old(array)@),
        old(array)@.value is Array && in_range(index, old(array)@.members().len()) ==> (r matches Ok(
            item,
        ) && item@ == old(array)@.members()[index as int] && final(array)@ == with_member(
            old(array)@,
            index as int,
            final(item)@,
        )),
{
    match &array.value {
        JsonValue::Array(_) => match place(index, count_members(array)) {
            Some(at) => Ok(member_at_mut(array, at)),
            None => Err(JsonError::NullPointer),
        },
        _ => type_mismatch("cannot get array item from a non-array Json item"),
    }
}

/// Appends `item` to an array.
pub fn cjson_add_item_to_array(array: &mut Json, item: Json) -> (r: Result<bool, JsonError>)
    ensures
        !(old(array)@.value is Array) ==> is_type_mismatch(
            r,
            "cannot add item to a non-array Json item"@,
        ) && final(array)@ == old(array)@,
        old(array)@.value is Array && !old(array)@.has_room() ==> r == Ok::<bool, JsonError>(false)
            && final(array)@ == old(array)@,
        old(array)@.value is Array && old(array)@.has_room() ==> r == Ok::<bool, JsonError>(true)
            && final(array)@ == old(array)@.linked(
            old(array)@.members().len() as int,
            item@.as_element(),
        ),
        old(array)@.wf() && item@.wf() ==> final(array)@.wf(),
        textual(old(array)@) && textual(item@) ==> textual(final(array)@),
{
    match &array.value {
        JsonValue::Array(_) => {
            if array.next_handle == u64::MAX {
                return Ok(false);
            }
            let len = count_members(array);
            let mut item = item;
            item.key = None;
            item.key_is_const = false;
            proof {
                if array@.wf() && item@.wf() {
                    lemma_linked_wf(array@, len as int, item@);
                }
                if textual(array@) && textual(item@) {
                    crate::utf8::lemma_linked_textual(array@, len as int, item@);
                }
            }
            link_at(array, len, item);
            Ok(true)
        },
        _ => type_mismatch("cannot add item to a non-array Json item"),
    }
}

/// Appends to an array a reference to `item`: a copy of it that is marked
/// as not owning what it holds.
pub fn cjson_add_item_reference_to_array(array: &mut Json, item: &Json) -> (r: Result<
    bool,
    JsonError,
>)
    ensures
        !(old(array)@.value is Array) ==> is_type_mismatch(
            r,
            "cannot add item to a non-array Json item"@,
        ) && final(array)@ == old(array)@,
        old(array)@.value is Array && !old(array)@.has_room() ==> r == Ok::<bool, JsonError>(false)
            && final(array)@ == old(array)@,
        old(array)@.value is Array && old(array)@.has_room() ==> r == Ok::<bool, JsonError>(true)
            && final(array)@ == old(array)@.linked(
            old(array)@.members().len() as int,
            item@.as_reference(),
        ),
        old(array)@.wf() && item@.wf() ==> final(array)@.wf(),
        textual(old(array)@) && textual(item@) ==> textual(final(array)@),
{
    match &array.value {
        JsonValue::Array(_) => {
            if array.next_handle == u64::MAX {
                return Ok(false);
            }
            let len = count_members(array);
            let mut shell = item.snapshot();
            shell.key = None;
            shell.key_is_const = false;
            shell.is_reference = true;
            proof {
                if array@.wf() && item@.wf() {
                    lemma_linked_wf(array@, len as int, shell@);
                }
                if textual(array@) && textual(item@) {
                    crate::utf8::lemma_linked_textual(array@, len as int, shell@);
                }
            }
            link_at(array, len, shell);
            Ok(true)
        },
        _ => type_mismatch("cannot add item to a non-array Json item"),
    }
}

/// Inserts `newitem` into an array before the member at `which`.
pub fn cjson_insert_item_in_array(array: &mut Json, which: i32, newitem: Json) -> (r: Result<
    bool,
    JsonError,
>)
    ensures
        !(old(array)@.value is Array) ==> is_type_mismatch(
            r,
            "cannot insert item in a non-array Json item"@,
        ) && final(array)@ == old(array)@,
        old(array)@.value is Array && !(in_range(which, old(array)@.members().len()) && old(array)@.has_room()) ==> r == Ok::<bool, JsonError>(false) && final(array)@ == old(array)@,
        old(array)@.value is Array && in_range(which, old(array)@.members().len()) && old(array)@.has_room() ==> r == Ok::<bool, JsonError>(true) && final(array)@ == old(array)@.linked(
            which as int,
            newitem@.as_element(),
        ),
        old(array)@.wf() && newitem@.wf() ==> final(array)@.wf(),
        textual(old(array)@) && textual(newitem@) ==> textual(final(array)@),
{
    match &array.value {
        JsonValue::Array(_) => {
            if array.next_handle == u64::MAX {
                return Ok(false);
            }
            match place(which, count_members(array)) {
                Some(at) => {
                    let mut item = newitem;
                    item.key = None;
                    item.key_is_const = false;
                    proof {
                        if array@.wf() && item@.wf() {
                            lemma_linked_wf(array@, at as int, item@);
                        }
                        if textual(array@) && textual(item@) {
                            crate::utf8::lemma_linked_textual(array@, at as int, item@);
                        }
                    }
                    link_at(array, at, item);
                    Ok(true)
                },
                None => Ok(false),
            }
        },
        _ => type_mismatch("cannot insert item in a non-array Json item"),
    }
}

/// Puts `newitem` in the place of the member of an array at `which`; the old
/// member is destroyed.
pub fn cjson_replace_item_in_array(array: &mut Json, which: i32, newitem: Json) -> (r: Result<
    bool,
    JsonError,
>)
    ensures
        !(old(array)@.value is Array) ==> is_type_mismatch(
            r,
            "cannot replace item in a non-array Json item"@,
        ) && final(array)@ == old(array)@,
        old(array)@.value is Array && !(in_range(which, old(array)@.members().len()) && old(array)@.has_room()) ==> r == Ok::<bool, JsonError>(false) && final(array)@ == old(array)@,
        old(array)@.value is Array && in_range(which, old(array)@.members().len()) && old(array)@.has_room() ==> r == Ok::<bool, JsonError>(true) && final(array)@ == old(array)@.relinked(
            which as int,
            newitem@.as_element(),
        ),
        old(array)@.wf() && newitem@.wf() ==> final(array)@.wf(),
        textual(old(array)@) && textual(newitem@) ==> textual(final(array)@),
{
    match &array.value {
        JsonValue::Array(_) => {
            if array.next_handle == u64::MAX {
                return Ok(false);
            }
            match place(which, count_members(array)) {
                Some(at) => {
                    let mut item = newitem;
                    item.key = None;
                    item.key_is_const = false;
                    proof {
                        if array@.wf() && item@.wf() {
                            lemma_relinked_wf(array@, at as int, item@);
                        }
                        if textual(array@) && textual(item@) {
                            crate::utf8::lemma_relinked_textual(array@, at as int, item@);
                        }
                    }
                    let _ = relink_at(array, at, item);
                    Ok(true)
                },
                None => Ok(false),
            }
        },
        _ => type_mismatch("cannot replace item in a non-array Json item"),
    }
}

/// Takes the member at `which` out of an array and hands it to the caller.
pub fn cjson_detach_item_from_array(array: &mut Json, which: i32) -> (r: Result<Json, JsonError>)
    ensures
        !(old(array)@.value is Array) ==> is_type_mismatch(
            r,
            "cannot detach item from a non-array Json item"@,
        ) && final(array)@ == old(array)@,
        old(array)@.value is Array && !in_range(which, old(array)@.members().len()) ==> (r matches Err(
            JsonError::NullPointer,
        ) && final(array)@ == old(array)@),
        old(array)@.value is Array && in_range(which, old(array)@.members().len()) ==> (r matches Ok(
            item,
        ) && item@ == old(array)@.members()[which as int] && final(array)@ == old(array)@.unlinked(
            which as int,
        )),
        old(array)@.wf() ==> final(array)@.wf() && (r matches Ok(item) ==> item@.wf()),
        textual(old(array)@) ==> textual(final(array)@) && (r matches Ok(item) ==> textual(item@)),
{
    match &array.value {
        JsonValue::Array(_) => match place(which, count_members(array)) {
            Some(at) => {
                proof {
                    if array@.wf() {
                        lemma_unlinked_wf(array@, at as int);
                    }
                    if textual(array@) {
                        crate::utf8::lemma_unlinked_textual(array@, at as int);
                    }
                }
                Ok(unlink_at(array, at))
            },
            None => Err(JsonError::NullPointer),
        },
        _ => type_mismatch("cannot detach item from a non-array Json item"),
    }
}

/// Takes the member at `which` out of an array and destroys it.
pub fn cjson_delete_item_from_array(array: &mut Json, which: i32) -> (r: Result<(), JsonError>)
    ensures
        !(old(array)@.value is Array) ==> is_type_mismatch(
            r,
            "cannot delete item from a non-array Json item"@,
        ) && final(array)@ == old(array)@,
        old(array)@.value is Array && !in_range(which, old(array)@.members().len()) ==> (r matches Err(
            JsonError::NullPointer,
        ) && final(array)@ == old(array)@),
        old(array)@.value is Array && in_range(which, old(array)@.members().len()) ==> r is Ok
            && final(array)@ == old(array)@.unlinked(which as int),
        old(array)@.wf() ==> final(array)@.wf(),
        textual(old(array)@) ==> textual(final(array)@),
{
    match cjson_detach_item_from_array(array, which) {
        Ok(_) => Ok(()),
        Err(JsonError::TypeMismatch(_)) => type_mismatch(
            "cannot delete item from a non-array Json item",
        ),
        Err(e) => Err(e),
    }
}

impl JsonValue {
    /// The vector of members of a container.
    pub open spec fn items(self) -> Vec<Json> {
        match self {
            JsonValue::Array(items) => items,
            JsonValue::Object(items) => items,
            _ => arbitrary(),
        }
    }
}

} // verus!
