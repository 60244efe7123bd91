//! A JSON document engine: text is parsed into a mutable tree, the tree is
//! queried and edited node by node, and serialized back to text.
//!
//! Every function states its result over the mathematical view of the tree
//! ([`node::Node`]), and all of it is proved. Numbers are IEEE-754 doubles,
//! held as their 64 bits and handled in integers alone; texts are byte
//! strings, and UTF-8 wherever they come from strings.
//!
//! Beside the contracts of the functions stand the laws that relate them:
//! what is printed parses back to an equal tree, a deep copy equals its
//! source, a text that nests too deep is refused as such, and more.

pub mod natural;
pub mod double;
pub mod decimal;
pub mod error;
pub mod text;
pub mod node;
pub mod edit;
pub mod create;
pub mod object;
pub mod compare;
pub mod lex;
pub mod parse;
pub mod format;
pub mod print;
pub mod ext;
pub mod minify;
pub mod utf8;
pub mod exact;
pub mod roundtrip;
pub mod laws;

pub use compare::{cjson_compare, cjson_duplicate};
pub use create::{
    cjson_create_array, cjson_create_array_reference, cjson_create_bool,
    cjson_create_double_array, cjson_create_false, cjson_create_float_array,
    cjson_create_int_array, cjson_create_null, cjson_create_number, cjson_create_object,
    cjson_create_object_reference, cjson_create_raw, cjson_create_string,
    cjson_create_string_array, cjson_create_string_reference, cjson_create_true, cjson_delete,
    cjson_get_int_value, cjson_get_number_value, cjson_get_string_value, cjson_set_number_helper,
    cjson_set_value_string, cjson_version, CJSON_VERSION_MAJOR, CJSON_VERSION_MINOR,
    CJSON_VERSION_PATCH,
};
pub use edit::{
    cjson_add_item_reference_to_array, cjson_add_item_to_array, cjson_delete_item_from_array,
    cjson_detach_item_from_array, cjson_get_array_item, cjson_get_array_item_mut,
    cjson_get_array_size, cjson_insert_item_in_array, cjson_replace_item_in_array,
};
pub use error::JsonError;
pub use ext::JsonPtrExt;
pub use minify::cjson_minify;
pub use node::{Json, JsonValue};
pub use object::{
    cjson_add_array_to_object, cjson_add_bool_to_object, cjson_add_false_to_object,
    cjson_add_item_reference_to_object, cjson_add_item_to_object, cjson_add_item_to_object_cs,
    cjson_add_null_to_object, cjson_add_number_to_object, cjson_add_object_to_object,
    cjson_add_raw_to_object, cjson_add_string_to_object, cjson_add_true_to_object,
    cjson_delete_item_from_object, cjson_detach_item_from_object, cjson_detach_item_via_pointer,
    cjson_get_object_item, cjson_get_object_item_case_sensitive,
    cjson_get_object_item_case_sensitive_mut, cjson_get_object_item_mut, cjson_has_object_item,
    cjson_replace_item_in_object, cjson_replace_item_in_object_case_sensitive,
    cjson_replace_item_via_pointer,
};
pub use parse::{
    cjson_get_error_ptr, cjson_parse_json, cjson_parse_json_with_length,
    cjson_parse_json_with_opts, CJSON_NESTING_LIMIT,
};
