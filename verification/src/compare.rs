//! Comparing two trees, and copying one.

use vstd::prelude::*;
use vstd::slice::slice_to_vec;
use vstd::std_specs::vec::axiom_vec_index_decreases;
use crate::double::{double_eq, doubles_equal, is_nan};
use crate::node::{copy_key, lemma_nodes_upto, nodes_of, Json, JsonValue, Node, Value};
use crate::text::{bytes_match, lemma_same_text_symmetric, same_text};

verus! {

/// Two members are known under the same key.
pub open spec fn keys_match(a: Option<Seq<u8>>, b: Option<Seq<u8>>, case_sensitive: bool) -> bool {
    match (a, b) {
        (Some(x), Some(y)) => same_text(x, y, case_sensitive),
        _ => false,
    }
}

/// Structural equality of two trees. Nodes of different types differ.
/// Scalars are compared by what they hold: numbers as doubles, texts
/// exactly or up to ASCII case. Arrays are equal when they have as many
/// members and these are equal one by one, in order. Objects are equal when
/// every member of either has, in the other, a member under a matching key
/// that is equal to it: the order of the members does not count.
pub open spec fn equal(a: Node, b: Node, case_sensitive: bool) -> bool
    decreases a,
{
    match (a.value, b.value) {
        (Value::Null, Value::Null) => true,
        (Value::Bool(x), Value::Bool(y)) => x == y,
        (Value::Number(x), Value::Number(y)) => double_eq(x, y),
        (Value::String(x), Value::String(y)) => same_text(x, y, case_sensitive),
        (Value::Raw(x), Value::Raw(y)) => same_text(x, y, case_sensitive),
        (Value::Array(x), Value::Array(y)) => {
            &&& x.len() == y.len()
            &&& forall|i: int| 0 <= i < x.len() ==> equal(#[trigger] x[i], y[i], case_sensitive)
        },
        (Value::Object(x), Value::Object(y)) => {
            &&& forall|i: int|
                #![trigger x[i]]
                0 <= i < x.len() ==> exists|j: int|
                    #![trigger y[j]]
                    0 <= j < y.len() && keys_match(x[i].key, y[j].key, case_sensitive) && equal(
                        x[i],
                        y[j],
                        case_sensitive,
                    )
            &&& forall|j: int|
                #![trigger y[j]]
                0 <= j < y.len() ==> exists|i: int|
                    #![trigger x[i]]
                    0 <= i < x.len() && keys_match(x[i].key, y[j].key, case_sensitive) && equal(
                        x[i],
                        y[j],
                        case_sensitive,
                    )
        },
        _ => false,
    }
}

/// The member of `x` at `i` and the member of `y` at `j` are partners: they
/// are known under matching keys and are equal.
pub open spec fn paired(x: Seq<Node>, i: int, y: Seq<Node>, j: int, case_sensitive: bool) -> bool {
    &&& 0 <= i < x.len()
    &&& 0 <= j < y.len()
    &&& keys_match(x[i].key, y[j].key, case_sensitive)
    &&& equal(x[i], y[j], case_sensitive)
}

/// The member of `x` at `i` has a partner in `y`.
pub open spec fn has_partner(x: Seq<Node>, i: int, y: Seq<Node>, case_sensitive: bool) -> bool {
    row_upto(x, i, y, y.len() as int, case_sensitive)
}

/// The member of `y` at `j` has a partner in `x`.
pub open spec fn is_partner(x: Seq<Node>, y: Seq<Node>, j: int, case_sensitive: bool) -> bool {
    col_upto(x, x.len() as int, y, j, case_sensitive)
}

/// Two objects are equal exactly if every member of either has a partner in
/// the other.
pub proof fn lemma_equal_objects(a: Node, b: Node, case_sensitive: bool)
    requires
        a.value is Object,
        b.value is Object,
    ensures
        equal(a, b, case_sensitive) == ((forall|i: int|
            0 <= i < a.members().len() ==> #[trigger] has_partner(
                a.members(),
                i,
                b.members(),
                case_sensitive,
            )) && (forall|j: int|
            0 <= j < b.members().len() ==> #[trigger] is_partner(
                a.members(),
                b.members(),
                j,
                case_sensitive,
            ))),
{
    let x = a.members();
    let y = b.members();
    let rows = forall|i: int| 0 <= i < x.len() ==> #[trigger] has_partner(x, i, y, case_sensitive);
    let cols = forall|j: int| 0 <= j < y.len() ==> #[trigger] is_partner(x, y, j, case_sensitive);
    if equal(a, b, case_sensitive) {
        assert forall|i: int| 0 <= i < x.len() implies #[trigger] has_partner(
            x,
            i,
            y,
            case_sensitive,
        ) by {
            let xi = x[i];
            let j = choose|j: int|
                #![trigger y[j]]
                0 <= j < y.len() && keys_match(x[i].key, y[j].key, case_sensitive) && equal(
                    x[i],
                    y[j],
                    case_sensitive,
                );
            assert(paired(x, i, y, j, case_sensitive));
        }
        assert forall|j: int| 0 <= j < y.len() implies #[trigger] is_partner(
            x,
            y,
            j,
            case_sensitive,
        ) by {
            let yj = y[j];
            let i = choose|i: int|
                #![trigger x[i]]
                0 <= i < x.len() && keys_match(x[i].key, y[j].key, case_sensitive) && equal(
                    x[i],
                    y[j],
                    case_sensitive,
                );
            assert(paired(x, i, y, j, case_sensitive));
        }
    }
    if rows && cols {
        assert forall|i: int| #![trigger x[i]] 0 <= i < x.len() implies exists|j: int|
            #![trigger y[j]]
            0 <= j < y.len() && keys_match(x[i].key, y[j].key, case_sensitive) && equal(
                x[i],
                y[j],
                case_sensitive,
            ) by {
            assert(has_partner(x, i, y, case_sensitive));
            let j = choose|j: int|
                0 <= j < y.len() && #[trigger] paired(x, i, y, j, case_sensitive);
            let yj = y[j];
        }
        assert forall|j: int| #![trigger y[j]] 0 <= j < y.len() implies exists|i: int|
            #![trigger x[i]]
            0 <= i < x.len() && keys_match(x[i].key, y[j].key, case_sensitive) && equal(
                x[i],
                y[j],
                case_sensitive,
            ) by {
            assert(is_partner(x, y, j, case_sensitive));
            let i = choose|i: int|
                0 <= i < x.len() && #[trigger] paired(x, i, y, j, case_sensitive);
            let xi = x[i];
        }
    }
}

/// The member of `x` at `i` has a partner among the first `upto` of `y`.
pub open spec fn row_upto(x: Seq<Node>, i: int, y: Seq<Node>, upto: int, case_sensitive: bool) -> bool {
    exists|j: int| 0 <= j < upto && #[trigger] paired(x, i, y, j, case_sensitive)
}

/// The member of `y` at `j` has a partner among the first `upto` of `x`.
pub open spec fn col_upto(x: Seq<Node>, upto: int, y: Seq<Node>, j: int, case_sensitive: bool) -> bool {
    exists|i: int| 0 <= i < upto && #[trigger] paired(x, i, y, j, case_sensitive)
}

proof fn lemma_row_step(x: Seq<Node>, i: int, y: Seq<Node>, upto: int, case_sensitive: bool)
    requires
        0 <= upto,
    ensures
        row_upto(x, i, y, upto + 1, case_sensitive) == (row_upto(x, i, y, upto, case_sensitive)
            || paired(x, i, y, upto, case_sensitive)),
        !row_upto(x, i, y, 0, case_sensitive),
{
    if row_upto(x, i, y, upto + 1, case_sensitive) {
        let j = choose|j: int| 0 <= j < upto + 1 && #[trigger] paired(x, i, y, j, case_sensitive);
        if j < upto {
            assert(row_upto(x, i, y, upto, case_sensitive));
        }
    }
    if row_upto(x, i, y, upto, case_sensitive) {
        let j = choose|j: int| 0 <= j < upto && #[trigger] paired(x, i, y, j, case_sensitive);
        assert(0 <= j < upto + 1 && paired(x, i, y, j, case_sensitive));
    }
    if paired(x, i, y, upto, case_sensitive) {
        assert(0 <= upto < upto + 1 && paired(x, i, y, upto, case_sensitive));
    }
}

proof fn lemma_col_step(x: Seq<Node>, upto: int, y: Seq<Node>, j: int, case_sensitive: bool)
    requires
        0 <= upto,
    ensures
        col_upto(x, upto + 1, y, j, case_sensitive) == (col_upto(x, upto, y, j, case_sensitive)
            || paired(x, upto, y, j, case_sensitive)),
        !col_upto(x, 0, y, j, case_sensitive),
{
    if col_upto(x, upto + 1, y, j, case_sensitive) {
        let i = choose|i: int| 0 <= i < upto + 1 && #[trigger] paired(x, i, y, j, case_sensitive);
        if i < upto {
            assert(col_upto(x, upto, y, j, case_sensitive));
        }
    }
    if col_upto(x, upto, y, j, case_sensitive) {
        let i = choose|i: int| 0 <= i < upto && #[trigger] paired(x, i, y, j, case_sensitive);
        assert(0 <= i < upto + 1 && paired(x, i, y, j, case_sensitive));
    }
    if paired(x, upto, y, j, case_sensitive) {
        assert(0 <= upto < upto + 1 && paired(x, upto, y, j, case_sensitive));
    }
}

/// Compares two keys.
fn keys_equal(a: &Option<Vec<u8>>, b: &Option<Vec<u8>>, case_sensitive: bool) -> (r: bool)
    ensures
        r == keys_match(crate::node::view_of_key(*a), crate::node::view_of_key(*b), case_sensitive),
{
    match (a, b) {
        (Some(x), Some(y)) => bytes_match(x.as_slice(), y.as_slice(), case_sensitive),
        _ => false,
    }
}

/// Compares two trees.
pub fn cjson_compare(a: &Json, b: &Json, case_sensitive: bool) -> (r: bool)
    ensures
        r == equal(a@, b@, case_sensitive),
    decreases a, 0nat,
{
    match &a.value {
        JsonValue::Null => match &b.value {
            JsonValue::Null => true,
            _ => false,
        },
        JsonValue::Bool(x) => match &b.value {
            JsonValue::Bool(y) => *x == *y,
            _ => false,
        },
        JsonValue::Number(x) => match &b.value {
            JsonValue::Number(y) => doubles_equal(*x, *y),
            _ => false,
        },
        JsonValue::String(x) => match &b.value {
            JsonValue::String(y) => bytes_match(x.as_slice(), y.as_slice(), case_sensitive),
            _ => false,
        },
        JsonValue::Raw(x) => match &b.value {
            JsonValue::Raw(y) => bytes_match(x.as_slice(), y.as_slice(), case_sensitive),
            _ => false,
        },
        JsonValue::Array(x) => match &b.value {
            JsonValue::Array(y) => arrays_equal(x, y, case_sensitive),
            _ => false,
        },
        JsonValue::Object(x) => match &b.value {
            JsonValue::Object(y) => {
                proof {
                    lemma_equal_objects(a@, b@, case_sensitive);
                    assert(a@.members() == nodes_of(*x));
                    assert(b@.members() == nodes_of(*y));
                }
                objects_equal(x, y, case_sensitive)
            },
            _ => false,
        },
    }
}

/// Compares the members of two arrays.
fn arrays_equal(x: &Vec<Json>, y: &Vec<Json>, case_sensitive: bool) -> (r: bool)
    ensures
        r == (nodes_of(*x).len() == nodes_of(*y).len() && forall|i: int|
            0 <= i < nodes_of(*x).len() ==> equal(
                #[trigger] nodes_of(*x)[i],
                nodes_of(*y)[i],
                case_sensitive,
            )),
    decreases x, 1nat,
{
    proof {
        lemma_nodes_upto(*x, x.len() as nat);
        lemma_nodes_upto(*y, y.len() as nat);
    }
    if x.len() != y.len() {
        return false;
    }
    let mut i: usize = 0;
    while i < x.len()
        invariant
            i <= x.len(),
            x.len() == y.len(),
            nodes_of(*x).len() == x.len(),
            nodes_of(*y).len() == y.len(),
            forall|k: int| 0 <= k < x.len() ==> (#[trigger] nodes_of(*x)[k]) == x[k]@,
            forall|k: int| 0 <= k < y.len() ==> (#[trigger] nodes_of(*y)[k]) == y[k]@,
            forall|k: int|
                0 <= k < i ==> equal(#[trigger] nodes_of(*x)[k], nodes_of(*y)[k], case_sensitive),
        decreases x.len() - i,
    {
        proof {
            axiom_vec_index_decreases(*x, i as int);
            assert(nodes_of(*x)[i as int] == x[i as int]@);
            assert(nodes_of(*y)[i as int] == y[i as int]@);
        }
        if !cjson_compare(&x[i], &y[i], case_sensitive) {
            return false;
        }
        i += 1;
    }
    true
}

/// Compares the members of two objects.
fn objects_equal(x: &Vec<Json>, y: &Vec<Json>, case_sensitive: bool) -> (r: bool)
    ensures
        r == ((forall|i: int|
            0 <= i < nodes_of(*x).len() ==> #[trigger] has_partner(
                nodes_of(*x),
                i,
                nodes_of(*y),
                case_sensitive,
            )) && (forall|j: int|
            0 <= j < nodes_of(*y).len() ==> #[trigger] is_partner(
                nodes_of(*x),
                nodes_of(*y),
                j,
                case_sensitive,
            ))),
    decreases x, 1nat,
{
    proof {
        lemma_nodes_upto(*x, x.len() as nat);
        lemma_nodes_upto(*y, y.len() as nat);
    }
    let ghost nx = nodes_of(*x);
    let ghost ny = nodes_of(*y);
    let n = x.len();
    let m = y.len();
    let mut taken: Vec<bool> = Vec::new();
    while taken.len() < m
        invariant
            taken.len() <= m,
            forall|j: int| 0 <= j < taken.len() ==> !taken[j],
        decreases m - taken.len(),
    {
        taken.push(false);
    }
    proof {
        assert forall|j: int| 0 <= j < m implies taken[j] == col_upto(
            nx,
            0,
            ny,
            j,
            case_sensitive,
        ) by {
            lemma_col_step(nx, 0, ny, j, case_sensitive);
        }
    }
    let mut i: usize = 0;
    while i < n
        invariant
            i <= n,
            n == x.len(),
            m == y.len(),
            nx == nodes_of(*x),
            ny == nodes_of(*y),
            nx.len() == n,
            ny.len() == m,
            forall|k: int| 0 <= k < n ==> (#[trigger] nx[k]) == x[k]@,
            forall|k: int| 0 <= k < m ==> (#[trigger] ny[k]) == y[k]@,
            taken.len() == m,
            forall|j: int| 0 <= j < m ==> taken[j] == col_upto(nx, i as int, ny, j, case_sensitive),
            forall|k: int| 0 <= k < i ==> #[trigger] has_partner(nx, k, ny, case_sensitive),
        decreases n - i,
    {
        let mut found = false;
        let mut j: usize = 0;
        proof {
            lemma_row_step(nx, i as int, ny, 0, case_sensitive);
        }
        while j < m
            invariant
                i < n,
                j <= m,
                n == x.len(),
                m == y.len(),
                nx == nodes_of(*x),
                ny == nodes_of(*y),
                nx.len() == n,
                ny.len() == m,
                forall|k: int| 0 <= k < n ==> (#[trigger] nx[k]) == x[k]@,
                forall|k: int| 0 <= k < m ==> (#[trigger] ny[k]) == y[k]@,
                taken.len() == m,
                found == row_upto(nx, i as int, ny, j as int, case_sensitive),
                forall|l: int|
                    0 <= l < j ==> taken[l] == col_upto(nx, i as int + 1, ny, l, case_sensitive),
                forall|l: int|
                    j <= l < m ==> taken[l] == col_upto(nx, i as int, ny, l, case_sensitive),
            decreases m - j,
        {
            proof {
                axiom_vec_index_decreases(*x, i as int);
                assert(nx[i as int] == x[i as int]@);
                assert(ny[j as int] == y[j as int]@);
                lemma_row_step(nx, i as int, ny, j as int, case_sensitive);
                lemma_col_step(nx, i as int, ny, j as int, case_sensitive);
            }
            if keys_equal(&x[i].key, &y[j].key, case_sensitive) {
                if cjson_compare(&x[i], &y[j], case_sensitive) {
                    found = true;
                    taken.set(j, true);
                }
            }
            j += 1;
        }
        if !found {
            proof {
                assert(!has_partner(nx, i as int, ny, case_sensitive));
            }
            return false;
        }
        i += 1;
    }
    let mut j: usize = 0;
    while j < m
        invariant
            j <= m,
            taken.len() == m,
            ny.len() == m,
            nx.len() == n,
            nx == nodes_of(*x),
            ny == nodes_of(*y),
            forall|l: int| 0 <= l < m ==> taken[l] == col_upto(nx, n as int, ny, l, case_sensitive),
            forall|l: int| 0 <= l < j ==> #[trigger] is_partner(nx, ny, l, case_sensitive),
        decreases m - j,
    {
        if !taken[j] {
            proof {
                assert(!is_partner(nx, ny, j as int, case_sensitive));
            }
            return false;
        }
        j += 1;
    }
    true
}

/// A copy of a tree that owns what it holds: no node of it is marked as a
/// reference or as having a constant key. With `recurse` the members are
/// copied too, in order and with their keys; without it a container is
/// copied without its members.
pub open spec fn duplicate(n: Node, recurse: bool) -> Node
    decreases n, 0nat,
{
    Node {
        value: match n.value {
            Value::Array(items) => Value::Array(
                if recurse {
                    duplicates_upto(items, items.len())
                } else {
                    Seq::empty()
                },
            ),
            Value::Object(items) => Value::Object(
                if recurse {
                    duplicates_upto(items, items.len())
                } else {
                    Seq::empty()
                },
            ),
            v => v,
        },
        key: n.key,
        key_is_const: false,
        is_reference: false,
        handle: n.handle,
        next_handle: n.next_handle,
    }
}

/// Deep copies of the first `n` of `items`.
pub open spec fn duplicates_upto(items: Seq<Node>, n: nat) -> Seq<Node>
    decreases items, n,
{
    if n == 0 || n > items.len() {
        Seq::empty()
    } else {
        duplicates_upto(items, (n - 1) as nat).push(duplicate(items[n - 1], true))
    }
}

/// The deep copies of a sequence of nodes are the copies of its elements,
/// one for one.
pub proof fn lemma_duplicates_upto(items: Seq<Node>, n: nat)
    requires
        n <= items.len(),
    ensures
        duplicates_upto(items, n).len() == n,
        forall|i: int|
            0 <= i < n ==> (#[trigger] duplicates_upto(items, n)[i]) == duplicate(items[i], true),
    decreases n,
{
    if n > 0 {
        lemma_duplicates_upto(items, (n - 1) as nat);
    }
}

/// No number of the tree is a NaN.
pub open spec fn nan_free(n: Node) -> bool
    decreases n,
{
    match n.value {
        Value::Number(bits) => !is_nan(bits),
        Value::Array(items) => forall|i: int| 0 <= i < items.len() ==> nan_free(#[trigger] items[i]),
        Value::Object(items) => forall|i: int|
            0 <= i < items.len() ==> nan_free(#[trigger] items[i]),
        _ => true,
    }
}

/// Every member of an object of the tree has a key.
pub open spec fn keyed(n: Node) -> bool
    decreases n,
{
    match n.value {
        Value::Array(items) => forall|i: int| 0 <= i < items.len() ==> keyed(#[trigger] items[i]),
        Value::Object(items) => forall|i: int|
            0 <= i < items.len() ==> (#[trigger] items[i]).key is Some && keyed(items[i]),
        _ => true,
    }
}

/// A well-formed tree has a key on every member of an object.
pub proof fn lemma_wf_keyed(n: Node)
    requires
        n.wf(),
    ensures
        keyed(n),
    decreases n,
{
    match n.value {
        Value::Array(items) => {
            assert forall|i: int| 0 <= i < items.len() implies keyed(#[trigger] items[i]) by {
                lemma_wf_keyed(items[i]);
            }
        },
        Value::Object(items) => {
            assert forall|i: int| 0 <= i < items.len() implies (#[trigger] items[i]).key is Some
                && keyed(items[i]) by {
                lemma_wf_keyed(items[i]);
            }
        },
        _ => {},
    }
}

/// A tree in which every member of an object has a key and no number is a
/// NaN equals itself up to the marks of ownership: it equals every tree
/// that differs from it only in whether nodes are marked as references or
/// as having constant keys, in handles, and in the key of the root.
pub proof fn lemma_equal_to_copy(n: Node, case_sensitive: bool)
    requires
        keyed(n),
        nan_free(n),
    ensures
        equal(duplicate(n, true), n, case_sensitive),
    decreases n,
{
    let d = duplicate(n, true);
    match n.value {
        Value::Array(items) => {
            lemma_duplicates_upto(items, items.len());
            let copies = d.members();
            assert forall|i: int| 0 <= i < copies.len() implies equal(
                #[trigger] copies[i],
                items[i],
                case_sensitive,
            ) by {
                lemma_equal_to_copy(items[i], case_sensitive);
            }
        },
        Value::Object(items) => {
            lemma_duplicates_upto(items, items.len());
            let copies = d.members();
            assert forall|i: int| 0 <= i < copies.len() implies #[trigger] paired(
                copies,
                i,
                items,
                i,
                case_sensitive,
            ) by {
                lemma_equal_to_copy(items[i], case_sensitive);
                crate::text::lemma_same_text_reflexive(items[i].key->Some_0, case_sensitive);
            }
            assert forall|i: int| 0 <= i < copies.len() implies #[trigger] has_partner(
                copies,
                i,
                items,
                case_sensitive,
            ) by {
                assert(paired(copies, i, items, i, case_sensitive));
            }
            assert forall|j: int| 0 <= j < items.len() implies #[trigger] is_partner(
                copies,
                items,
                j,
                case_sensitive,
            ) by {
                assert(paired(copies, j, items, j, case_sensitive));
            }
            lemma_equal_objects(d, n, case_sensitive);
        },
        _ => {},
    }
}

/// A deep copy of a tree equals the tree, case-sensitively, where the tree is well
/// formed and holds no NaN (a NaN equals nothing, itself included).
pub proof fn law_deep_copy_is_equal(x: Node)
    requires
        x.wf(),
        nan_free(x),
    ensures
        equal(duplicate(x, true), x, true),
{
    lemma_wf_keyed(x);
    lemma_equal_to_copy(x, true);
}

/// A copy without the members equals the tree only if the tree has no
/// members.
pub proof fn law_shallow_copy_equal_only_without_members(x: Node, case_sensitive: bool)
    requires
        equal(duplicate(x, false), x, case_sensitive),
    ensures
        x.members().len() == 0,
{
    let d = duplicate(x, false);
    match x.value {
        Value::Array(items) => {
            assert(d.members().len() == 0);
        },
        Value::Object(items) => {
            lemma_equal_objects(d, x, case_sensitive);
            if items.len() > 0 {
                assert(is_partner(d.members(), x.members(), 0, case_sensitive));
            }
        },
        _ => {},
    }
}

/// A copy of a well-formed tree is well formed.
pub proof fn lemma_duplicate_wf(n: Node, recurse: bool)
    requires
        n.wf(),
    ensures
        duplicate(n, recurse).wf(),
    decreases n,
{
    let d = duplicate(n, recurse);
    if n.value.is_container() {
        let items = n.members();
        if recurse {
            lemma_duplicates_upto(items, items.len());
            let copies = d.members();
            assert forall|i: int| 0 <= i < copies.len() implies (#[trigger] copies[i]).wf()
                && copies[i].key == items[i].key && copies[i].handle == items[i].handle by {
                lemma_duplicate_wf(items[i], true);
            }
            assert(crate::node::distinct_handles(copies, d.next_handle)) by {
                assert forall|i: int, j: int| 0 <= i < j < copies.len() implies (
                #[trigger] copies[i]).handle != (#[trigger] copies[j]).handle by {
                    assert(items[i].handle != items[j].handle);
                }
            }
        }
    }
}

/// Copies a tree: with its members if `recurse`, without them otherwise.
pub fn cjson_duplicate(item: &Json, recurse: bool) -> (r: Json)
    ensures
        r@ == duplicate(item@, recurse),
        item@.wf() ==> r@.wf(),
        crate::node::textual(item@) ==> crate::node::textual(r@),
    decreases item, 0nat,
{
    let value = match &item.value {
        JsonValue::Null => JsonValue::Null,
        JsonValue::Bool(b) => JsonValue::Bool(*b),
        JsonValue::Number(bits) => JsonValue::Number(*bits),
        JsonValue::String(s) => JsonValue::String(slice_to_vec(s.as_slice())),
        JsonValue::Raw(s) => JsonValue::Raw(slice_to_vec(s.as_slice())),
        JsonValue::Array(items) => JsonValue::Array(
            if recurse {
                duplicate_all(items)
            } else {
                Vec::new()
            },
        ),
        JsonValue::Object(items) => JsonValue::Object(
            if recurse {
                duplicate_all(items)
            } else {
                Vec::new()
            },
        ),
    };
    let r = Json {
        value,
        key: copy_key(&item.key),
        key_is_const: false,
        is_reference: false,
        handle: item.handle,
        next_handle: item.next_handle,
    };
    proof {
        if item@.value.is_container() {
            lemma_nodes_upto(item.value.items(), item.value.items().len() as nat);
            lemma_nodes_upto(r.value.items(), r.value.items().len() as nat);
            lemma_duplicates_upto(item@.members(), item@.members().len());
            assert(r@.members() =~= duplicate(item@, recurse).members());
        }
        if item@.wf() {
            lemma_duplicate_wf(item@, recurse);
        }
        if crate::node::textual(item@) {
            crate::utf8::lemma_duplicate_textual(item@, recurse);
        }
    }
    r
}

/// Deep copies of the nodes of a vector, in order.
fn duplicate_all(items: &Vec<Json>) -> (r: Vec<Json>)
    ensures
        r.len() == items.len(),
        forall|i: int| 0 <= i < items.len() ==> (#[trigger] r[i])@ == duplicate(items[i]@, true),
    decreases items, 1nat,
{
    let mut out: Vec<Json> = Vec::new();
    let mut i: usize = 0;
    while i < items.len()
        invariant
            i <= items.len(),
            out.len() == i,
            forall|k: int| 0 <= k < i ==> (#[trigger] out[k])@ == duplicate(items[k]@, true),
        decreases items.len() - i,
    {
        proof {
            axiom_vec_index_decreases(*items, i as int);
        }
        let copy = cjson_duplicate(&items[i], true);
        out.push(copy);
        i += 1;
    }
    out
}

/// Equality does not depend on the side: a tree equals another exactly if
/// the other equals it. So "every member of either has a partner in the
/// other" can be said from either side.
pub proof fn law_equal_is_symmetric(a: Node, b: Node, case_sensitive: bool)
    ensures
        equal(a, b, case_sensitive) == equal(b, a, case_sensitive),
    decreases a,
{
    match (a.value, b.value) {
        (Value::String(x), Value::String(y)) => {
            lemma_same_text_symmetric(x, y, case_sensitive);
        },
        (Value::Raw(x), Value::Raw(y)) => {
            lemma_same_text_symmetric(x, y, case_sensitive);
        },
        (Value::Array(x), Value::Array(y)) => {
            if x.len() == y.len() {
                assert forall|i: int| 0 <= i < x.len() implies equal(x[i], y[i], case_sensitive)
                    == equal(y[i], x[i], case_sensitive) by {
                    law_equal_is_symmetric(x[i], y[i], case_sensitive);
                }
                if equal(a, b, case_sensitive) {
                    assert forall|i: int| 0 <= i < y.len() implies equal(
                        #[trigger] y[i],
                        x[i],
                        case_sensitive,
                    ) by {
                        assert(equal(x[i], y[i], case_sensitive));
                    }
                }
                if equal(b, a, case_sensitive) {
                    assert forall|i: int| 0 <= i < x.len() implies equal(
                        #[trigger] x[i],
                        y[i],
                        case_sensitive,
                    ) by {
                        assert(equal(y[i], x[i], case_sensitive));
                    }
                }
            }
        },
        (Value::Object(x), Value::Object(y)) => {
            assert forall|i: int, j: int| 0 <= i < x.len() && 0 <= j < y.len() implies paired(
                x,
                i,
                y,
                j,
                case_sensitive,
            ) == paired(y, j, x, i, case_sensitive) by {
                law_equal_is_symmetric(x[i], y[j], case_sensitive);
                match (x[i].key, y[j].key) {
                    (Some(k), Some(l)) => {
                        lemma_same_text_symmetric(k, l, case_sensitive);
                    },
                    _ => {},
                }
            }
            lemma_equal_objects(a, b, case_sensitive);
            lemma_equal_objects(b, a, case_sensitive);
            assert forall|i: int| 0 <= i < x.len() implies has_partner(x, i, y, case_sensitive)
                == is_partner(y, x, i, case_sensitive) by {
                if has_partner(x, i, y, case_sensitive) {
                    let j = choose|j: int|
                        0 <= j < y.len() && #[trigger] paired(x, i, y, j, case_sensitive);
                    assert(paired(y, j, x, i, case_sensitive));
                }
                if is_partner(y, x, i, case_sensitive) {
                    let j = choose|j: int|
                        0 <= j < y.len() && #[trigger] paired(y, j, x, i, case_sensitive);
                    assert(paired(x, i, y, j, case_sensitive));
                }
            }
            assert forall|j: int| 0 <= j < y.len() implies is_partner(x, y, j, case_sensitive)
                == has_partner(y, j, x, case_sensitive) by {
                if is_partner(x, y, j, case_sensitive) {
                    let i = choose|i: int|
                        0 <= i < x.len() && #[trigger] paired(x, i, y, j, case_sensitive);
                    assert(paired(y, j, x, i, case_sensitive));
                }
                if has_partner(y, j, x, case_sensitive) {
                    let i = choose|i: int|
                        0 <= i < x.len() && #[trigger] paired(y, j, x, i, case_sensitive);
                    assert(paired(x, i, y, j, case_sensitive));
                }
            }
            if equal(a, b, case_sensitive) {
                assert forall|j: int| 0 <= j < y.len() implies #[trigger] has_partner(
                    b.members(),
                    j,
                    a.members(),
                    case_sensitive,
                ) by {
                    assert(is_partner(a.members(), b.members(), j, case_sensitive));
                }
                assert forall|i: int| 0 <= i < x.len() implies #[trigger] is_partner(
                    b.members(),
                    a.members(),
                    i,
                    case_sensitive,
                ) by {
                    assert(has_partner(a.members(), i, b.members(), case_sensitive));
                }
            }
            if equal(b, a, case_sensitive) {
                assert forall|i: int| 0 <= i < x.len() implies #[trigger] has_partner(
                    a.members(),
                    i,
                    b.members(),
                    case_sensitive,
                ) by {
                    assert(is_partner(b.members(), a.members(), i, case_sensitive));
                }
                assert forall|j: int| 0 <= j < y.len() implies #[trigger] is_partner(
                    a.members(),
                    b.members(),
                    j,
                    case_sensitive,
                ) by {
                    assert(has_partner(b.members(), j, a.members(), case_sensitive));
                }
            }
        },
        _ => {},
    }
}

} // verus!
