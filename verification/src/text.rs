//! Byte strings: comparison with and without ASCII case, the search for a
//! zero byte, and the passage between `str` and bytes.

use vstd::prelude::*;
use vstd::slice::slice_to_vec;
use vstd::string::StringSliceAdditionalSpecFns;
use vstd::utf8::{decode_utf8, encode_utf8, valid_utf8};

verus! {

/// The lower-case form of an ASCII letter; any other byte is left alone.
pub open spec fn lower(b: u8) -> u8 {
    if 0x41 <= b <= 0x5A {
        (b + 32) as u8
    } else {
        b
    }
}

/// `s` with every ASCII upper-case letter lowered.
pub open spec fn folded(s: Seq<u8>) -> Seq<u8> {
    Seq::new(s.len(), |i: int| lower(s[i]))
}

/// Equality of two byte strings: exact, or up to ASCII case.
pub open spec fn same_text(a: Seq<u8>, b: Seq<u8>, case_sensitive: bool) -> bool {
    if case_sensitive {
        a == b
    } else {
        folded(a) == folded(b)
    }
}

/// No byte of `s` is zero.
pub open spec fn nul_free(s: Seq<u8>) -> bool {
    forall|i: int| 0 <= i < s.len() ==> s[i] != 0
}

/// `at` is the offset of the first zero byte of `s`.
pub open spec fn first_nul(s: Seq<u8>, at: int) -> bool {
    &&& 0 <= at < s.len()
    &&& s[at] == 0
    &&& forall|i: int| 0 <= i < at ==> s[i] != 0
}

/// The offset of the first zero byte of `s`, where it has one.
pub open spec fn nul_position(s: Seq<u8>) -> int {
    choose|at: int| first_nul(s, at)
}

/// There is one first zero byte at most.
pub proof fn lemma_nul_position(s: Seq<u8>, at: int)
    requires
        first_nul(s, at),
    ensures
        nul_position(s) == at,
        !nul_free(s),
{
    let other = nul_position(s);
    assert(first_nul(s, other));
    if other < at {
        assert(s[other] != 0);
    }
    if at < other {
        assert(s[at] != 0);
    }
}

/// What a byte string reads as: its characters where it is UTF-8, and the
/// empty string where it is not.
pub open spec fn text_of(bytes: Seq<u8>) -> Seq<char> {
    if valid_utf8(bytes) {
        decode_utf8(bytes)
    } else {
        Seq::empty()
    }
}

/// Being the same text does not depend on the side.
pub proof fn lemma_same_text_symmetric(a: Seq<u8>, b: Seq<u8>, case_sensitive: bool)
    ensures
        same_text(a, b, case_sensitive) == same_text(b, a, case_sensitive),
{
}

/// A text is the same as itself, exactly and up to case.
pub proof fn lemma_same_text_reflexive(a: Seq<u8>, case_sensitive: bool)
    ensures
        same_text(a, a, case_sensitive),
{
}

/// The lower-case form of an ASCII letter.
pub fn to_lower(b: u8) -> (r: u8)
    ensures
        r == lower(b),
{
    if 0x41 <= b && b <= 0x5A {
        b + 32
    } else {
        b
    }
}

/// Compares two byte strings, exactly or up to ASCII case.
pub fn bytes_match(a: &[u8], b: &[u8], case_sensitive: bool) -> (r: bool)
    ensures
        r == same_text(a@, b@, case_sensitive),
{
    if a.len() != b.len() {
        proof {
            assert(folded(a@).len() != folded(b@).len());
        }
        return false;
    }
    let mut i: usize = 0;
    while i < a.len()
        invariant
            i <= a.len(),
            a.len() == b.len(),
            forall|k: int|
                0 <= k < i ==> (if case_sensitive {
                    a@[k] == b@[k]
                } else {
                    lower(a@[k]) == lower(b@[k])
                }),
        decreases a.len() - i,
    {
        let x: u8 = a[i];
        let y: u8 = b[i];
        let same = if case_sensitive {
            x == y
        } else {
            to_lower(x) == to_lower(y)
        };
        if !same {
            proof {
                assert(folded(a@)[i as int] == lower(a@[i as int]));
                assert(folded(b@)[i as int] == lower(b@[i as int]));
            }
            return false;
        }
        i += 1;
    }
    proof {
        if case_sensitive {
            assert(a@ =~= b@);
        } else {
            assert(folded(a@) =~= folded(b@));
        }
    }
    true
}

/// Looks for the first zero byte.
pub fn find_nul(s: &[u8]) -> (r: Option<usize>)
    ensures
        match r {
            Some(at) => first_nul(s@, at as int),
            None => nul_free(s@),
        },
{
    let mut i: usize = 0;
    while i < s.len()
        invariant
            i <= s.len(),
            forall|k: int| 0 <= k < i ==> s@[k] != 0,
        decreases s.len() - i,
    {
        if s[i] == 0 {
            return Some(i);
        }
        i += 1;
    }
    None
}

/// The bytes of a string.
pub fn bytes_of(s: &str) -> (r: Vec<u8>)
    ensures
        r@ == s.spec_bytes(),
{
    slice_to_vec(s.as_bytes())
}

/// `String::from_utf8` of std: the string made of exactly these bytes, where
/// they are UTF-8, and nothing where they are not.
#[verifier::external_body]
fn string_from_utf8(bytes: Vec<u8>) -> (r: Option<String>)
    ensures
        r is Some <==> valid_utf8(bytes@),
        r matches Some(s) ==> encode_utf8(s@) == bytes@,
{
    String::from_utf8(bytes).ok()
}

/// The string that a byte string reads as.
pub fn string_of(bytes: &[u8]) -> (r: String)
    ensures
        r@ == text_of(bytes@),
{
    match string_from_utf8(slice_to_vec(bytes)) {
        Some(s) => {
            proof {
                vstd::utf8::encode_utf8_decode_utf8(s@);
            }
            s
        },
        None => String::new(),
    }
}

} // verus!
