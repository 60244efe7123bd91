use cjson_rs::{
    cjson_add_item_to_object, cjson_compare, cjson_create_int_array, cjson_create_number,
    cjson_create_object, cjson_create_string, cjson_get_array_item, cjson_get_array_size,
    cjson_get_number_value, cjson_get_object_item, cjson_get_object_item_case_sensitive,
    cjson_get_string_value, cjson_has_object_item, cjson_insert_item_in_array, cjson_parse_json,
    cjson_parse_json_with_length, cjson_parse_json_with_opts, Json, JsonError, JsonPtrExt,
    JsonValue,
};

fn count(json: &Json) -> usize {
    match &json.value {
        JsonValue::Array(items) => items.len(),
        JsonValue::Object(items) => items.len(),
        _ => 0,
    }
}

#[test]
fn parse_object_and_print_unformatted() {
    let json = cjson_parse_json("{\"a\":1,\"b\":[true,false,null]}".to_string()).unwrap();
    assert!(json.is_type_object());
    assert_eq!(count(&json), 2);
    assert_eq!(json.print_unformatted().unwrap(), "{\"a\":1,\"b\":[true,false,null]}");
}

#[test]
fn parse_with_length_ignores_what_follows() {
    let json = cjson_parse_json_with_length("{\"rps\":500} garbage".to_string(), 11).unwrap();
    assert!(json.is_type_object());
    assert_eq!(json.print_unformatted().unwrap(), "{\"rps\":500}");
    let rps = cjson_get_object_item(&json, "rps").unwrap();
    assert_eq!(f64::from_bits(cjson_get_number_value(rps).unwrap()), 500.0);
}

#[test]
fn parse_ignores_what_follows_a_complete_value() {
    let (json, end) = cjson_parse_json_with_opts("  [1, 2] tail", usize::MAX, 1000).unwrap();
    assert_eq!(end, 8);
    assert_eq!(json.print_unformatted().unwrap(), "[1,2]");
}

#[test]
fn keys_that_differ_in_case_are_told_apart() {
    let mut obj = cjson_create_object();
    assert_eq!(
        cjson_add_item_to_object(&mut obj, "Name", cjson_create_string("first".to_string()).unwrap()),
        Ok(true)
    );
    assert_eq!(
        cjson_add_item_to_object(&mut obj, "name", cjson_create_string("second".to_string()).unwrap()),
        Ok(true)
    );
    assert_eq!(cjson_has_object_item(&obj, "Name"), Ok(true));
    let exact = cjson_get_object_item_case_sensitive(&obj, "name").unwrap();
    assert_eq!(cjson_get_string_value(exact).unwrap(), "second");
    let loose = cjson_get_object_item(&obj, "name").unwrap();
    assert_eq!(cjson_get_string_value(loose).unwrap(), "first");
    assert!(matches!(
        cjson_get_object_item_case_sensitive(&obj, "NAME"),
        Err(JsonError::NullPointer)
    ));
    assert_eq!(cjson_has_object_item(&obj, "NAME"), Ok(true));
    assert_eq!(cjson_has_object_item(&obj, "other"), Ok(false));
}

#[test]
fn insert_into_int_array() {
    let numbers = [1, 3, 4, 5];
    let mut arr = cjson_create_int_array(&numbers, 4).unwrap();
    assert_eq!(cjson_insert_item_in_array(&mut arr, 1, cjson_create_number(2.0f64.to_bits())), Ok(true));
    assert_eq!(cjson_get_array_size(&arr), Ok(5));
    assert_eq!(arr.print_unformatted().unwrap(), "[1,2,3,4,5]");
    for i in 0..5 {
        let item = cjson_get_array_item(&arr, i).unwrap();
        assert_eq!(f64::from_bits(cjson_get_number_value(item).unwrap()), (i + 1) as f64);
    }
}

#[test]
fn numbers_compare_by_value() {
    let a = cjson_parse_json("{\"x\":1}".to_string()).unwrap();
    let b = cjson_parse_json("{\"x\":1.0}".to_string()).unwrap();
    assert!(cjson_compare(&a, &b, true));
    let c = cjson_parse_json("{\"x\":1.5}".to_string()).unwrap();
    assert!(!cjson_compare(&a, &c, true));
}

#[test]
fn print_preallocated_fits_or_fails() {
    let empty = cjson_create_object();
    let mut buffer = vec![0xAAu8; 4];
    assert_eq!(empty.print_preallocated(&mut buffer, 4, false), Ok(()));
    assert_eq!(buffer, vec![b'{', b'}', 0, 0xAA]);

    let json = cjson_parse_json("{\"a\":1}".to_string()).unwrap();
    let mut small = vec![0xAAu8; 4];
    assert_eq!(json.print_preallocated(&mut small, 4, false), Err(JsonError::BufferTooSmall));
    assert_eq!(small, vec![0xAAu8; 4]);

    let mut exact = vec![0xAAu8; 8];
    assert_eq!(json.print_preallocated(&mut exact, 8, false), Ok(()));
    assert_eq!(&exact[..7], b"{\"a\":1}");
    assert_eq!(exact[7], 0);

    let mut seven = vec![0xAAu8; 8];
    assert_eq!(json.print_preallocated(&mut seven, 7, false), Err(JsonError::BufferTooSmall));
    assert_eq!(json.print_preallocated(&mut seven, -1, false), Err(JsonError::BufferTooSmall));
    assert_eq!(json.print_preallocated(&mut seven, 9, false), Err(JsonError::BufferTooSmall));
}
