//! The tree: a node of JSON, its mathematical view, and what makes a tree
//! well formed.

use vstd::prelude::*;
use vstd::slice::slice_to_vec;
use vstd::std_specs::vec::axiom_vec_index_decreases;
use vstd::utf8::valid_utf8;
use crate::text::nul_free;

verus! {

/// What a node holds.
#[derive(Debug)]
pub enum JsonValue {
    Null,
    Bool(bool),
    /// A number, as the 64 bits of its IEEE-754 double.
    Number(u64),
    String(Vec<u8>),
    /// Text that is printed as it stands.
    Raw(Vec<u8>),
    /// The members, in order.
    Array(Vec<Json>),
    /// The members, in the order in which they were added; each has a key.
    Object(Vec<Json>),
}

/// One JSON value: a scalar, or a container with its members.
#[derive(Debug)]
pub struct Json {
    pub value: JsonValue,
    /// The name under which the node is a member of an object.
    pub key: Option<Vec<u8>>,
    /// The key was handed in as a constant.
    pub key_is_const: bool,
    /// The node was made as a reference to another node's payload.
    pub is_reference: bool,
    /// The identity of the node among the members of its container. It is
    /// given when the node is linked in, and no other member of the same
    /// container ever has it.
    pub handle: u64,
    /// For a container: the handle that the next member linked in gets.
    pub next_handle: u64,
}

/// The view of a [`JsonValue`].
pub enum Value {
    Null,
    Bool(bool),
    Number(u64),
    String(Seq<u8>),
    Raw(Seq<u8>),
    Array(Seq<Node>),
    Object(Seq<Node>),
}

/// The view of a [`Json`]: the same tree over mathematical sequences.
pub struct Node {
    pub value: Value,
    pub key: Option<Seq<u8>>,
    pub key_is_const: bool,
    pub is_reference: bool,
    pub handle: u64,
    pub next_handle: u64,
}

impl Value {
    /// The members of a container; a scalar has none.
    pub open spec fn members(self) -> Seq<Node> {
        match self {
            Value::Array(items) => items,
            Value::Object(items) => items,
            _ => Seq::empty(),
        }
    }

    /// An array or an object.
    pub open spec fn is_container(self) -> bool {
        self is Array || self is Object
    }

    /// The same container with other members; a scalar as it is.
    pub open spec fn with_members(self, items: Seq<Node>) -> Value {
        match self {
            Value::Array(_) => Value::Array(items),
            Value::Object(_) => Value::Object(items),
            _ => self,
        }
    }
}

impl Node {
    /// A node that holds `value` and is no member of anything.
    pub open spec fn fresh(value: Value) -> Node {
        Node {
            value,
            key: None,
            key_is_const: false,
            is_reference: false,
            handle: 0,
            next_handle: 0,
        }
    }

    /// The members of a container; a scalar has none.
    pub open spec fn members(self) -> Seq<Node> {
        self.value.members()
    }

    /// The node with other members and another next handle.
    pub open spec fn with_members(self, items: Seq<Node>, next_handle: u64) -> Node {
        Node { value: self.value.with_members(items), next_handle, ..self }
    }

    /// The node as it is linked into an array: without a key.
    pub open spec fn as_element(self) -> Node {
        Node { key: None, key_is_const: false, ..self }
    }

    /// The node as it is linked into an object: under `key`.
    pub open spec fn as_member(self, key: Seq<u8>, key_is_const: bool) -> Node {
        Node { key: Some(key), key_is_const, ..self }
    }

    /// The node as a reference: marked as not owning its payload, and no
    /// member of anything.
    pub open spec fn as_reference(self) -> Node {
        Node { key: None, key_is_const: false, is_reference: true, ..self }
    }

    /// A tree is well formed when, in every container of it, the members of
    /// an object have a key and those of an array have none, no two members
    /// have the same handle, every handle is below the container's next
    /// handle, and no key or text holds a zero byte.
    pub open spec fn wf(self) -> bool
        decreases self,
    {
        &&& match self.key {
            Some(k) => nul_free(k),
            None => true,
        }
        &&& match self.value {
            Value::String(s) => nul_free(s),
            Value::Raw(s) => nul_free(s),
            Value::Array(items) => {
                &&& forall|i: int| 0 <= i < items.len() ==> (#[trigger] items[i]).wf()
                &&& forall|i: int| 0 <= i < items.len() ==> (#[trigger] items[i]).key is None
                &&& distinct_handles(items, self.next_handle)
            },
            Value::Object(items) => {
                &&& forall|i: int| 0 <= i < items.len() ==> (#[trigger] items[i]).wf()
                &&& forall|i: int| 0 <= i < items.len() ==> (#[trigger] items[i]).key is Some
                &&& distinct_handles(items, self.next_handle)
            },
            _ => true,
        }
    }

    /// The number of nesting levels of containers: 0 for a scalar.
    pub open spec fn depth(self) -> nat
        decreases self,
    {
        match self.value {
            Value::Array(items) => 1 + deepest(items),
            Value::Object(items) => 1 + deepest(items),
            _ => 0,
        }
    }
}

/// The greatest depth among `items`; 0 where there are none.
pub open spec fn deepest(items: Seq<Node>) -> nat
    decreases items,
{
    if items.len() == 0 {
        0
    } else {
        let first = items[0].depth();
        let rest = deepest(items.drop_first());
        if first >= rest {
            first
        } else {
            rest
        }
    }
}

/// Every text and every key of the tree is UTF-8.
pub open spec fn textual(t: Node) -> bool
    decreases t,
{
    &&& match t.key {
        Some(k) => valid_utf8(k),
        None => true,
    }
    &&& match t.value {
        Value::String(text) => valid_utf8(text),
        Value::Raw(text) => valid_utf8(text),
        Value::Array(items) => forall|i: int| 0 <= i < items.len() ==> textual(#[trigger] items[i]),
        Value::Object(items) => forall|i: int|
            0 <= i < items.len() ==> textual(#[trigger] items[i]),
        _ => true,
    }
}

/// Every node of the sequence is textual.
pub open spec fn all_textual(items: Seq<Node>) -> bool {
    forall|i: int| 0 <= i < items.len() ==> textual(#[trigger] items[i])
}

/// No two of `items` have the same handle, and each handle is below `bound`.
pub open spec fn distinct_handles(items: Seq<Node>, bound: u64) -> bool {
    &&& forall|i: int| 0 <= i < items.len() ==> (#[trigger] items[i]).handle < bound
    &&& forall|i: int, j: int|
        0 <= i < j < items.len() ==> (#[trigger] items[i]).handle != (#[trigger] items[j]).handle
}

/// The view of a key.
pub open spec fn view_of_key(key: Option<Vec<u8>>) -> Option<Seq<u8>> {
    match key {
        Some(k) => Some(k@),
        None => None,
    }
}

/// The view of a node.
pub open spec fn node_of(j: Json) -> Node
    decreases j, 0nat,
{
    Node {
        value: match j.value {
            JsonValue::Null => Value::Null,
            JsonValue::Bool(b) => Value::Bool(b),
            JsonValue::Number(bits) => Value::Number(bits),
            JsonValue::String(s) => Value::String(s@),
            JsonValue::Raw(s) => Value::Raw(s@),
            JsonValue::Array(items) => Value::Array(nodes_upto(items, items.len() as nat)),
            JsonValue::Object(items) => Value::Object(nodes_upto(items, items.len() as nat)),
        },
        key: view_of_key(j.key),
        key_is_const: j.key_is_const,
        is_reference: j.is_reference,
        handle: j.handle,
        next_handle: j.next_handle,
    }
}

/// The views of the first `n` of `items`.
pub open spec fn nodes_upto(items: Vec<Json>, n: nat) -> Seq<Node>
    decreases items, n,
{
    if n == 0 || n > items.len() {
        Seq::empty()
    } else {
        nodes_upto(items, (n - 1) as nat).push(node_of(items[n - 1]))
    }
}

/// The views of `items`.
pub open spec fn nodes_of(items: Vec<Json>) -> Seq<Node> {
    nodes_upto(items, items.len() as nat)
}

impl View for Json {
    type V = Node;

    open spec fn view(&self) -> Node {
        node_of(*self)
    }
}

/// The views of a vector of nodes are the views of its elements, one for one.
pub broadcast proof fn lemma_nodes_upto(items: Vec<Json>, n: nat)
    requires
        n <= items.len(),
    ensures
        (#[trigger] nodes_upto(items, n)).len() == n,
        forall|i: int| 0 <= i < n ==> (#[trigger] nodes_upto(items, n)[i]) == items[i]@,
    decreases n,
{
    if n > 0 {
        lemma_nodes_upto(items, (n - 1) as nat);
    }
}

/// Vectors with the same elements have the same views.
pub proof fn lemma_nodes_of_by_elements(items: Vec<Json>, nodes: Seq<Node>)
    requires
        nodes.len() == items.len(),
        forall|i: int| 0 <= i < items.len() ==> nodes[i] == #[trigger] items[i]@,
    ensures
        nodes_of(items) == nodes,
{
    lemma_nodes_upto(items, items.len() as nat);
    assert(nodes_of(items) =~= nodes);
}

impl Json {
    /// A node that holds `value` and is no member of anything.
    pub fn new(value: JsonValue) -> (r: Json)
        ensures
            r.value == value,
            r.key is None,
            !r.key_is_const,
            !r.is_reference,
            r.handle == 0,
            r.next_handle == 0,
    {
        Json { value, key: None, key_is_const: false, is_reference: false, handle: 0, next_handle: 0 }
    }

    /// A copy of the node: every field and every member, as it is.
    pub fn snapshot(&self) -> (r: Json)
        ensures
            r@ == self@,
        decreases self, 0nat,
    {
        let value = match &self.value {
            JsonValue::Null => JsonValue::Null,
            JsonValue::Bool(b) => JsonValue::Bool(*b),
            JsonValue::Number(bits) => JsonValue::Number(*bits),
            JsonValue::String(s) => JsonValue::String(slice_to_vec(s.as_slice())),
            JsonValue::Raw(s) => JsonValue::Raw(slice_to_vec(s.as_slice())),
            JsonValue::Array(items) => JsonValue::Array(snapshot_all(items)),
            JsonValue::Object(items) => JsonValue::Object(snapshot_all(items)),
        };
        Json {
            value,
            key: copy_key(&self.key),
            key_is_const: self.key_is_const,
            is_reference: self.is_reference,
            handle: self.handle,
            next_handle: self.next_handle,
        }
    }

    /// The members of a container; `None` for a scalar.
    pub fn members(&self) -> (r: Option<&Vec<Json>>)
        ensures
            self@.value.is_container() == r is Some,
            r matches Some(items) ==> nodes_of(*items) == self@.members(),
    {
        match &self.value {
            JsonValue::Array(items) => Some(items),
            JsonValue::Object(items) => Some(items),
            _ => None,
        }
    }
}

/// A copy of a key.
pub fn copy_key(key: &Option<Vec<u8>>) -> (r: Option<Vec<u8>>)
    ensures
        view_of_key(r) == view_of_key(*key),
{
    match key {
        Some(k) => Some(slice_to_vec(k.as_slice())),
        None => None,
    }
}

/// Copies of the nodes of a vector, in order.
pub fn snapshot_all(items: &Vec<Json>) -> (r: Vec<Json>)
    ensures
        nodes_of(r) == nodes_of(*items),
    decreases items, 1nat,
{
    let mut out: Vec<Json> = Vec::new();
    let mut i: usize = 0;
    while i < items.len()
        invariant
            i <= items.len(),
            out.len() == i,
            forall|k: int| 0 <= k < i ==> out[k]@ == items[k]@,
        decreases items.len() - i,
    {
        proof {
            axiom_vec_index_decreases(*items, i as int);
        }
        let copy = items[i].snapshot();
        out.push(copy);
        i += 1;
    }
    proof {
        lemma_nodes_upto(*items, items.len() as nat);
        lemma_nodes_of_by_elements(out, nodes_of(*items));
    }
    out
}

} // verus!
