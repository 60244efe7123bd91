use cjson_rs::{
    cjson_add_item_to_array, cjson_add_item_to_object, cjson_compare, cjson_create_array,
    cjson_create_number, cjson_create_object, cjson_create_raw, cjson_create_string,
    cjson_parse_json, JsonError, JsonPtrExt,
};

#[test]
fn empty_containers_print() {
    assert_eq!(cjson_create_object().print().unwrap(), "{\n}");
    assert_eq!(cjson_create_object().print_unformatted().unwrap(), "{}");
    assert_eq!(cjson_create_object().print_buffered(8, false).unwrap(), "{}");
    assert_eq!(cjson_create_array().print().unwrap(), "[]");
    assert_eq!(cjson_create_array().print_unformatted().unwrap(), "[]");
}

#[test]
fn formatted_text_has_one_member_on_a_line() {
    let json = cjson_parse_json("{\"a\":1,\"b\":[true,{\"c\":null}],\"d\":{}}".to_string()).unwrap();
    let expected = "{\n\t\"a\": 1,\n\t\"b\": [\n\t\ttrue,\n\t\t{\n\t\t\t\"c\": null\n\t\t}\n\t],\n\t\"d\": {\n\t}\n}";
    assert_eq!(json.print().unwrap(), expected);
    assert_eq!(json.print_buffered(0, true).unwrap(), expected);
}

#[test]
fn the_three_ways_of_printing_give_the_same_text() {
    let json = cjson_parse_json("{\"k\":[1,2.5,\"x\",{\"y\":[]}]}".to_string()).unwrap();
    for formatted in [false, true] {
        let grown = if formatted { json.print().unwrap() } else { json.print_unformatted().unwrap() };
        let hinted = json.print_buffered(3, formatted).unwrap();
        let mut buffer = vec![0u8; grown.len() + 5];
        let length = buffer.len() as i32;
        json.print_preallocated(&mut buffer, length, formatted).unwrap();
        assert_eq!(grown, hinted);
        assert_eq!(&buffer[..grown.len()], grown.as_bytes());
        assert_eq!(buffer[grown.len()], 0);
    }
}

#[test]
fn negative_prebuffer_is_refused() {
    assert_eq!(
        cjson_create_object().print_buffered(-1, false),
        Err(JsonError::PrintBufferedError)
    );
}

#[test]
fn strings_are_escaped() {
    let json = cjson_create_string("a\"b\\c/\u{8}\u{c}\n\r\t\u{1}\u{1f} \u{e9}".to_string()).unwrap();
    assert_eq!(
        json.print_unformatted().unwrap(),
        "\"a\\\"b\\\\c/\\b\\f\\n\\r\\t\\u0001\\u001f \u{e9}\""
    );
}

#[test]
fn raw_prints_as_it_stands() {
    let mut obj = cjson_create_object();
    cjson_add_item_to_object(&mut obj, "r", cjson_create_raw("{\"x\": [1, 2]}".to_string()).unwrap())
        .unwrap();
    assert_eq!(obj.print_unformatted().unwrap(), "{\"r\":{\"x\": [1, 2]}}");
    assert!(cjson_create_raw("1".to_string()).unwrap().is_type_raw());
}

#[test]
fn numbers_print() {
    let mut arr = cjson_create_array();
    for x in [0.0, -0.0, 1.0, -1.5, 1e21, 0.1, f64::NAN, f64::INFINITY, 254.0] {
        cjson_add_item_to_array(&mut arr, cjson_create_number(x.to_bits())).unwrap();
    }
    assert_eq!(arr.print_unformatted().unwrap(), "[0,0,1,-1.5,1e+21,0.1,0,0,254]");
}

#[test]
fn what_is_printed_parses_back_to_an_equal_tree() {
    let texts = [
        "{\"a\":1,\"b\":[true,false,null],\"c\":{\"d\":\"e\\n\\u0001\"},\"f\":-2.5e-10}",
        "[[],{},[[[0.1,1e300,123456789012345678901234567890]]]]",
        "\"just a string \\uD83D\\uDE00\"",
        "-0",
        "{\"dup\":1,\"dup\":2}",
    ];
    for text in texts {
        let tree = cjson_parse_json(text.to_string()).unwrap();
        for formatted in [false, true] {
            let printed = tree.print_buffered(0, formatted).unwrap();
            let again = cjson_parse_json(printed).unwrap();
            assert!(cjson_compare(&again, &tree, true), "{}", text);
        }
    }
}

#[test]
fn text_that_is_no_utf8_reads_as_nothing() {
    let broken = cjson_rs::Json::new(cjson_rs::JsonValue::String(vec![0xff, 0x41]));
    assert_eq!(cjson_rs::cjson_get_string_value(&broken).unwrap(), "");
    assert_eq!(broken.print_unformatted().unwrap(), "");
    let fine = cjson_rs::Json::new(cjson_rs::JsonValue::String(vec![0xc3, 0xa9]));
    assert_eq!(cjson_rs::cjson_get_string_value(&fine).unwrap(), "\u{e9}");
    assert_eq!(fine.delete(), 1);
}
