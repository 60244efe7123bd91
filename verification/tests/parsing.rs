use cjson_rs::{
    cjson_get_array_item, cjson_get_error_ptr, cjson_get_number_value, cjson_get_object_item,
    cjson_get_string_value, cjson_minify, cjson_parse_json, cjson_parse_json_with_length,
    cjson_parse_json_with_opts, JsonError, JsonPtrExt, CJSON_NESTING_LIMIT,
};

fn parse(text: &str) -> Result<cjson_rs::Json, JsonError> {
    cjson_parse_json(text.to_string())
}

#[test]
fn literals_parse() {
    assert!(parse("null").unwrap().is_type_null());
    assert!(parse("true").unwrap().is_type_true());
    assert!(parse("false").unwrap().is_type_false());
    assert!(parse(" \t\r\n true").unwrap().is_type_bool());
    assert!(!parse("true").unwrap().is_type_invalid());
    assert!(!parse("true").unwrap().is_type_raw());
}

#[test]
fn empty_text_is_refused() {
    assert_eq!(parse("").unwrap_err(), JsonError::EmptyStringError);
    assert_eq!(
        cjson_parse_json_with_length("".to_string(), 5).unwrap_err(),
        JsonError::EmptyStringError
    );
}

#[test]
fn zero_byte_is_refused_with_its_offset() {
    assert_eq!(parse("[1,\0 2]").unwrap_err(), JsonError::CStringError(3));
}

#[test]
fn blank_text_is_a_parse_error_at_its_end() {
    assert_eq!(parse("   ").unwrap_err(), JsonError::ParseError(3));
    assert_eq!(
        cjson_parse_json_with_length("[1]".to_string(), 0).unwrap_err(),
        JsonError::ParseError(0)
    );
}

#[test]
fn malformed_text_is_refused_at_the_offending_byte() {
    assert_eq!(parse("[1,]").unwrap_err(), JsonError::ParseError(3));
    assert_eq!(parse("[1 2]").unwrap_err(), JsonError::ParseError(3));
    assert_eq!(parse("[1,2").unwrap_err(), JsonError::ParseError(4));
    assert_eq!(parse("{\"a\" 1}").unwrap_err(), JsonError::ParseError(5));
    assert_eq!(parse("{\"a\":1,}").unwrap_err(), JsonError::ParseError(7));
    assert_eq!(parse("{a:1}").unwrap_err(), JsonError::ParseError(1));
    assert_eq!(parse("[1}").unwrap_err(), JsonError::ParseError(2));
    assert_eq!(parse("nul").unwrap_err(), JsonError::ParseError(0));
    assert_eq!(parse("\"abc").unwrap_err(), JsonError::ParseError(4));
    assert_eq!(parse("?").unwrap_err(), JsonError::ParseError(0));
}

#[test]
fn malformed_numbers_are_refused() {
    assert_eq!(parse("-").unwrap_err(), JsonError::ParseError(1));
    assert_eq!(parse("01").unwrap_err(), JsonError::ParseError(1));
    assert_eq!(parse("[-01]").unwrap_err(), JsonError::ParseError(3));
    assert_eq!(parse("1.").unwrap_err(), JsonError::ParseError(2));
    assert_eq!(parse("1.e5").unwrap_err(), JsonError::ParseError(2));
    assert_eq!(parse("1e").unwrap_err(), JsonError::ParseError(2));
    assert_eq!(parse("1e+").unwrap_err(), JsonError::ParseError(3));
    assert_eq!(parse("+1").unwrap_err(), JsonError::ParseError(0));
    assert_eq!(parse(".5").unwrap_err(), JsonError::ParseError(0));
}

#[test]
fn numbers_parse_to_the_nearest_double() {
    let cases = ["0", "-0", "10", "-12.5", "1e3", "1E-3", "2.5e+2", "0.1", "123456789.123456789"];
    for text in cases {
        let json = parse(text).unwrap();
        let expected: f64 = text.parse().unwrap();
        assert_eq!(cjson_get_number_value(&json).unwrap(), expected.to_bits(), "{}", text);
    }
    let huge = parse("1e999").unwrap();
    assert_eq!(f64::from_bits(cjson_get_number_value(&huge).unwrap()), f64::INFINITY);
}

#[test]
fn string_escapes_are_decoded() {
    let json = parse(r#""a\"b\\c\/d\b\f\n\r\t""#).unwrap();
    assert_eq!(cjson_get_string_value(&json).unwrap(), "a\"b\\c/d\u{8}\u{c}\n\r\t");
    let json = parse(r#""Aé€""#).unwrap();
    assert_eq!(cjson_get_string_value(&json).unwrap(), "A\u{e9}\u{20ac}");
    let json = parse(r#""😀""#).unwrap();
    assert_eq!(cjson_get_string_value(&json).unwrap(), "\u{1F600}");
    let json = parse("\"h\u{e9}llo \u{1F600}\"").unwrap();
    assert_eq!(cjson_get_string_value(&json).unwrap(), "h\u{e9}llo \u{1F600}");
}

#[test]
fn malformed_escapes_are_refused() {
    assert_eq!(parse(r#""\x""#).unwrap_err(), JsonError::ParseError(1));
    assert_eq!(parse(r#""ab\u12G4""#).unwrap_err(), JsonError::ParseError(3));
    assert_eq!(parse(r#""\u0000""#).unwrap_err(), JsonError::ParseError(1));
    assert_eq!(parse(r#""\uDC00""#).unwrap_err(), JsonError::ParseError(1));
    assert_eq!(parse(r#""\uD83D""#).unwrap_err(), JsonError::ParseError(1));
    assert_eq!(parse(r#""\uD83DA""#).unwrap_err(), JsonError::ParseError(1));
    assert_eq!(parse("\"\\").unwrap_err(), JsonError::ParseError(1));
}

#[test]
fn members_keep_their_order() {
    let json = parse(" { \"z\" : 1 , \"a\" : [ ] , \"m\" : { } } ").unwrap();
    assert_eq!(json.print_unformatted().unwrap(), "{\"z\":1,\"a\":[],\"m\":{}}");
    let a = cjson_get_object_item(&json, "a").unwrap();
    assert!(a.is_type_array());
    let json = parse("[[1,2],[3,[4]]]").unwrap();
    let inner = cjson_get_array_item(cjson_get_array_item(&json, 1).unwrap(), 1).unwrap();
    assert_eq!(inner.print_unformatted().unwrap(), "[4]");
}

#[test]
fn parsed_members_have_the_handles_of_their_places() {
    let json = parse("[10,20,30]").unwrap();
    for i in 0..3 {
        assert_eq!(cjson_get_array_item(&json, i).unwrap().handle, i as u64);
    }
    assert_eq!(json.next_handle, 3);
}

fn nested(depth: usize) -> String {
    let mut text = String::new();
    for _ in 0..depth {
        text.push('[');
    }
    for _ in 0..depth {
        text.push(']');
    }
    text
}

#[test]
fn nesting_up_to_the_limit_parses() {
    let json = parse(&nested(CJSON_NESTING_LIMIT)).unwrap();
    assert!(json.is_type_array());
    assert!(cjson_parse_json_with_opts("[[[1]]]", usize::MAX, 3).is_ok());
    assert!(cjson_parse_json_with_opts("{\"a\":[{\"b\":1}]}", usize::MAX, 3).is_ok());
    assert!(cjson_parse_json_with_opts("7", usize::MAX, 0).is_ok());
}

#[test]
fn nesting_beyond_the_limit_is_refused() {
    assert_eq!(
        parse(&nested(CJSON_NESTING_LIMIT + 1)).unwrap_err(),
        JsonError::NestingLimitExceeded(CJSON_NESTING_LIMIT)
    );
    assert_eq!(
        cjson_parse_json_with_opts("[[[[1]]]]", usize::MAX, 3).unwrap_err(),
        JsonError::NestingLimitExceeded(3)
    );
    assert_eq!(
        cjson_parse_json_with_opts("{\"a\":[{\"b\":1}]}", usize::MAX, 2).unwrap_err(),
        JsonError::NestingLimitExceeded(6)
    );
    assert_eq!(
        cjson_parse_json_with_opts("[]", usize::MAX, 0).unwrap_err(),
        JsonError::NestingLimitExceeded(0)
    );
    let deep = nested(200_000);
    assert!(matches!(parse(&deep), Err(JsonError::NestingLimitExceeded(_))));
}

#[test]
fn error_ptr_is_the_rest_of_the_text() {
    let text = "[1, 2, oops]";
    let error = parse(text).unwrap_err();
    assert_eq!(error, JsonError::ParseError(7));
    assert_eq!(cjson_get_error_ptr(text, &error), Some("oops]".to_string()));
    assert_eq!(cjson_get_error_ptr(text, &JsonError::EmptyStringError), None);
    assert_eq!(cjson_get_error_ptr(text, &JsonError::ParseError(100)), Some(String::new()));
}

#[test]
fn minify_strips_blanks_outside_strings() {
    let mut text = "{\n\t\"name\": \"Nemuel\",\n\t\"age\": 20\n}".to_string();
    cjson_minify(&mut text).unwrap();
    assert_eq!(text, "{\"name\":\"Nemuel\",\"age\":20}");
    let mut text = "[ \"a b\\\" c\" , \"\\\\\" , 1 ]".to_string();
    cjson_minify(&mut text).unwrap();
    assert_eq!(text, "[\"a b\\\" c\",\"\\\\\",1]");
    let mut bad = "a\0b".to_string();
    assert_eq!(cjson_minify(&mut bad), Err(JsonError::CStringError(1)));
    assert_eq!(bad, "a\0b");
}

#[test]
fn error_messages() {
    assert_eq!(JsonError::EmptyStringError.message(), "you provided an empty string");
    assert_eq!(JsonError::ParseError(3).message(), "failed to parse the JSON string");
    assert_eq!(JsonError::TypeMismatch("wrong".to_string()).message(), "wrong");
}
