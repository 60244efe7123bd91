//! What a node can be asked: its type, and its text.

use vstd::prelude::*;
use crate::create::{cjson_delete, held, released};
use crate::error::JsonError;
use vstd::utf8::encode_utf8;
use crate::node::{textual, Json, JsonValue, Node, Value};
use crate::print::{
    fits, print_bytes, print_bytes_buffered, print_bytes_preallocated, printed, written,
};
use crate::text::{string_of, text_of};

verus! {

/// The text of a textual tree, read as a string, holds exactly the bytes of
/// the text.
pub proof fn lemma_text_of(t: Node, formatted: bool)
    requires
        textual(t),
    ensures
        encode_utf8(text_of(printed(t, formatted, 0))) == printed(t, formatted, 0),
{
    crate::utf8::lemma_printed_valid(t, formatted, 0);
    vstd::utf8::decode_utf8_encode_utf8(printed(t, formatted, 0));
}

/// The questions that a node answers.
pub trait JsonPtrExt {
    /// The tree that the answers are about.
    spec fn tree(&self) -> Node;

    /// No node is invalid: this is always `false`.
    fn is_type_invalid(&self) -> (r: bool)
        ensures
            !r,
    ;

    fn is_type_false(&self) -> (r: bool)
        ensures
            r == (self.tree().value == Value::Bool(false)),
    ;

    fn is_type_true(&self) -> (r: bool)
        ensures
            r == (self.tree().value == Value::Bool(true)),
    ;

    fn is_type_bool(&self) -> (r: bool)
        ensures
            r == (self.tree().value is Bool),
    ;

    fn is_type_null(&self) -> (r: bool)
        ensures
            r == (self.tree().value is Null),
    ;

    fn is_type_number(&self) -> (r: bool)
        ensures
            r == (self.tree().value is Number),
    ;

    fn is_type_string(&self) -> (r: bool)
        ensures
            r == (self.tree().value is String),
    ;

    fn is_type_array(&self) -> (r: bool)
        ensures
            r == (self.tree().value is Array),
    ;

    fn is_type_object(&self) -> (r: bool)
        ensures
            r == (self.tree().value is Object),
    ;

    fn is_type_raw(&self) -> (r: bool)
        ensures
            r == (self.tree().value is Raw),
    ;

    /// The formatted text of the tree. Where every text of the tree is
    /// UTF-8, the string holds exactly the bytes of the text.
    fn print(&self) -> (r: Result<String, JsonError>)
        ensures
            r matches Ok(s) && s@ == text_of(printed(self.tree(), true, 0)),
            textual(self.tree()) ==> (r matches Ok(s) && encode_utf8(s@) == printed(
                self.tree(),
                true,
                0,
            )),
    ;

    /// The text of the tree, formatted or not, written into a buffer that
    /// has room for `prebuffer` bytes to begin with and grows as needed. A
    /// negative `prebuffer` is refused.
    fn print_buffered(&self, prebuffer: i32, fmt: bool) -> (r: Result<String, JsonError>)
        ensures
            prebuffer >= 0 ==> (r matches Ok(s) && s@ == text_of(printed(self.tree(), fmt, 0))),
            prebuffer >= 0 && textual(self.tree()) ==> (r matches Ok(s) && encode_utf8(s@)
                == printed(self.tree(), fmt, 0)),
            prebuffer < 0 ==> r == Err::<String, JsonError>(JsonError::PrintBufferedError),
    ;

    /// Writes the text of the tree, and a zero byte behind it, into the
    /// first `length` bytes of `buffer`, which keeps its size. Where they do
    /// not fit, nothing is written.
    fn print_preallocated(&self, buffer: &mut Vec<u8>, length: i32, format: bool) -> (r: Result<
        (),
        JsonError,
    >)
        ensures
            fits(printed(self.tree(), format, 0), length, old(buffer)@.len()) ==> r is Ok && final(buffer)@ == written(old(buffer)@, printed(self.tree(), format, 0)),
            !fits(printed(self.tree(), format, 0), length, old(buffer)@.len()) ==> r == Err::<
                (),
                JsonError,
            >(JsonError::BufferTooSmall) && final(buffer)@ == old(buffer)@,
    ;

    /// The unformatted text of the tree. Where every text of the tree is
    /// UTF-8, the string holds exactly the bytes of the text.
    fn print_unformatted(&self) -> (r: Result<String, JsonError>)
        ensures
            r matches Ok(s) && s@ == text_of(printed(self.tree(), false, 0)),
            textual(self.tree()) ==> (r matches Ok(s) && encode_utf8(s@) == printed(
                self.tree(),
                false,
                0,
            )),
    ;

    /// Destroys the tree, and tells how many nodes went with it.
    fn delete(self) -> (r: u64) where Self: Sized
        ensures
            r == held(released(self.tree())),
    ;
}

impl JsonPtrExt for Json {
    open spec fn tree(&self) -> Node {
        self@
    }

    fn is_type_invalid(&self) -> (r: bool) {
        false
    }

    fn is_type_false(&self) -> (r: bool) {
        match &self.value {
            JsonValue::Bool(b) => !*b,
            _ => false,
        }
    }

    fn is_type_true(&self) -> (r: bool) {
        match &self.value {
            JsonValue::Bool(b) => *b,
            _ => false,
        }
    }

    fn is_type_bool(&self) -> (r: bool) {
        match &self.value {
            JsonValue::Bool(_) => true,
            _ => false,
        }
    }

    fn is_type_null(&self) -> (r: bool) {
        match &self.value {
            JsonValue::Null => true,
            _ => false,
        }
    }

    fn is_type_number(&self) -> (r: bool) {
        match &self.value {
            JsonValue::Number(_) => true,
            _ => false,
        }
    }

    fn is_type_string(&self) -> (r: bool) {
        match &self.value {
            JsonValue::String(_) => true,
            _ => false,
        }
    }

    fn is_type_array(&self) -> (r: bool) {
        match &self.value {
            JsonValue::Array(_) => true,
            _ => false,
        }
    }

    fn is_type_object(&self) -> (r: bool) {
        match &self.value {
            JsonValue::Object(_) => true,
            _ => false,
        }
    }

    fn is_type_raw(&self) -> (r: bool) {
        match &self.value {
            JsonValue::Raw(_) => true,
            _ => false,
        }
    }

    fn print(&self) -> (r: Result<String, JsonError>) {
        let bytes = print_bytes(self, true);
        proof {
            if textual(self@) {
                lemma_text_of(self@, true);
            }
        }
        Ok(string_of(bytes.as_slice()))
    }

    fn print_buffered(&self, prebuffer: i32, fmt: bool) -> (r: Result<String, JsonError>) {
        if prebuffer < 0 {
            return Err(JsonError::PrintBufferedError);
        }
        let bytes = print_bytes_buffered(self, prebuffer as usize, fmt);
        proof {
            if textual(self@) {
                lemma_text_of(self@, fmt);
            }
        }
        Ok(string_of(bytes.as_slice()))
    }

    fn print_preallocated(&self, buffer: &mut Vec<u8>, length: i32, format: bool) -> (r: Result<
        (),
        JsonError,
    >) {
        print_bytes_preallocated(self, buffer, length, format)
    }

    fn print_unformatted(&self) -> (r: Result<String, JsonError>) {
        let bytes = print_bytes(self, false);
        proof {
            if textual(self@) {
                lemma_text_of(self@, false);
            }
        }
        Ok(string_of(bytes.as_slice()))
    }

    fn delete(self) -> (r: u64) {
        cjson_delete(self)
    }
}

} // verus!
