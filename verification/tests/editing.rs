use cjson_rs::{
    cjson_add_array_to_object, cjson_add_bool_to_object, cjson_add_false_to_object,
    cjson_add_item_reference_to_array, cjson_add_item_reference_to_object,
    cjson_add_item_to_array, cjson_add_item_to_object, cjson_add_item_to_object_cs,
    cjson_add_null_to_object, cjson_add_number_to_object, cjson_add_object_to_object,
    cjson_add_raw_to_object, cjson_add_string_to_object, cjson_add_true_to_object,
    cjson_compare, cjson_create_array, cjson_create_array_reference, cjson_create_bool,
    cjson_create_double_array, cjson_create_false, cjson_create_float_array,
    cjson_create_int_array, cjson_create_null, cjson_create_number, cjson_create_object,
    cjson_create_object_reference, cjson_create_string, cjson_create_string_array,
    cjson_create_string_reference, cjson_create_true, cjson_delete,
    cjson_delete_item_from_array, cjson_delete_item_from_object, cjson_detach_item_from_array,
    cjson_detach_item_from_object, cjson_detach_item_via_pointer, cjson_duplicate,
    cjson_get_array_item, cjson_get_array_item_mut, cjson_get_array_size, cjson_get_int_value,
    cjson_get_number_value, cjson_get_object_item, cjson_get_object_item_case_sensitive_mut,
    cjson_get_object_item_mut, cjson_get_string_value, cjson_insert_item_in_array,
    cjson_parse_json, cjson_replace_item_in_array, cjson_replace_item_in_object,
    cjson_replace_item_in_object_case_sensitive, cjson_replace_item_via_pointer,
    cjson_set_number_helper, cjson_set_value_string, cjson_version, Json, JsonError, JsonPtrExt,
    CJSON_VERSION_MAJOR, CJSON_VERSION_MINOR, CJSON_VERSION_PATCH,
};

fn num(x: f64) -> Json {
    cjson_create_number(x.to_bits())
}

fn text(json: &Json) -> String {
    json.print_unformatted().unwrap()
}

fn parse(text: &str) -> Json {
    cjson_parse_json(text.to_string()).unwrap()
}

fn mismatch<T: std::fmt::Debug>(r: Result<T, JsonError>, message: &str) {
    assert_eq!(r.unwrap_err(), JsonError::TypeMismatch(message.to_string()));
}

#[test]
fn version_is_told() {
    assert_eq!(cjson_version(), "1.7.18");
    assert_eq!((CJSON_VERSION_MAJOR, CJSON_VERSION_MINOR, CJSON_VERSION_PATCH), (1, 7, 18));
}

#[test]
fn constructors_make_nodes_of_their_type() {
    assert!(cjson_create_null().is_type_null());
    assert!(cjson_create_true().is_type_true());
    assert!(cjson_create_false().is_type_false());
    assert!(cjson_create_bool(true).is_type_bool());
    assert!(cjson_create_bool(false).is_type_false());
    assert!(num(254.0).is_type_number());
    assert!(cjson_create_string("Nemuel".to_string()).unwrap().is_type_string());
    assert!(cjson_create_array().is_type_array());
    assert!(cjson_create_object().is_type_object());
    assert!(!cjson_create_object().is_type_array());
    assert!(!cjson_create_null().is_type_invalid());
}

#[test]
fn strings_with_a_zero_byte_are_refused() {
    assert_eq!(
        cjson_create_string("ab\0c".to_string()).unwrap_err(),
        JsonError::CStringError(2)
    );
    let mut obj = cjson_create_object();
    assert_eq!(
        cjson_add_item_to_object(&mut obj, "\0", cjson_create_null()).unwrap_err(),
        JsonError::CStringError(0)
    );
    assert_eq!(
        cjson_add_string_to_object(&mut obj, "k", "v\0").unwrap_err(),
        JsonError::CStringError(1)
    );
    assert_eq!(text(&obj), "{}");
}

#[test]
fn number_and_string_values_are_read_and_set() {
    let mut number = num(1.0);
    assert_eq!(f64::from_bits(cjson_get_number_value(&number).unwrap()), 1.0);
    assert_eq!(cjson_set_number_helper(&mut number, 2.0f64.to_bits()), Ok(2.0f64.to_bits()));
    assert_eq!(f64::from_bits(cjson_get_number_value(&number).unwrap()), 2.0);

    let mut string = cjson_create_string("Nemuel".to_string()).unwrap();
    assert_eq!(cjson_get_string_value(&string).unwrap(), "Nemuel");
    assert_eq!(cjson_set_value_string(&mut string, "Wainaina").unwrap(), "Wainaina");
    assert_eq!(cjson_get_string_value(&string).unwrap(), "Wainaina");

    mismatch(cjson_get_number_value(&string), "cannot get number value from a non-number Json item");
    mismatch(cjson_get_string_value(&number), "cannot get string value from a non-string Json item");
    mismatch(
        cjson_set_number_helper(&mut string, 0),
        "cannot set number value for a non-number Json item",
    );
    mismatch(
        cjson_set_value_string(&mut number, "x"),
        "cannot set string value for a non-string Json item",
    );

    let mut reference = cjson_create_string_reference("fixed".to_string()).unwrap();
    assert!(reference.is_reference);
    assert_eq!(cjson_set_value_string(&mut reference, "x").unwrap_err(), JsonError::NullPointer);
    assert_eq!(cjson_get_string_value(&reference).unwrap(), "fixed");
}

#[test]
fn the_integer_twin_follows_the_double() {
    assert_eq!(cjson_get_int_value(&num(3.99)), Some(3));
    assert_eq!(cjson_get_int_value(&num(-3.99)), Some(-3));
    assert_eq!(cjson_get_int_value(&num(0.5)), Some(0));
    assert_eq!(cjson_get_int_value(&num(2147483646.5)), Some(2147483646));
    assert_eq!(cjson_get_int_value(&num(2147483647.0)), Some(i32::MAX));
    assert_eq!(cjson_get_int_value(&num(1e300)), Some(i32::MAX));
    assert_eq!(cjson_get_int_value(&num(-2147483648.0)), Some(i32::MIN));
    assert_eq!(cjson_get_int_value(&num(-1e300)), Some(i32::MIN));
    assert_eq!(cjson_get_int_value(&num(f64::INFINITY)), Some(i32::MAX));
    assert_eq!(cjson_get_int_value(&num(f64::NEG_INFINITY)), Some(i32::MIN));
    assert_eq!(cjson_get_int_value(&num(f64::NAN)), Some(0));
    assert_eq!(cjson_get_int_value(&num(5e-324)), Some(0));
    assert_eq!(cjson_get_int_value(&cjson_create_null()), None);
    let mut n = num(7.0);
    cjson_set_number_helper(&mut n, 8.75f64.to_bits()).unwrap();
    assert_eq!(cjson_get_int_value(&n), Some(8));
}

#[test]
fn arrays_of_numbers_and_strings() {
    let ints = cjson_create_int_array(&[1, -2, 0, i32::MAX, i32::MIN], 5).unwrap();
    assert_eq!(text(&ints), "[1,-2,0,2147483647,-2147483648]");
    assert_eq!(text(&cjson_create_int_array(&[1, 2, 3], 2).unwrap()), "[1,2]");
    assert!(cjson_create_int_array(&[1, 2, 3], 4).is_none());
    assert!(cjson_create_int_array(&[1, 2, 3], -1).is_none());

    let singles = [1.0f32, 0.1, -2.5, f32::MIN_POSITIVE / 4.0, f32::MAX];
    let bits: Vec<u32> = singles.iter().map(|x| x.to_bits()).collect();
    let floats = cjson_create_float_array(&bits, 5).unwrap();
    for (i, x) in singles.iter().enumerate() {
        let item = cjson_get_array_item(&floats, i as i32).unwrap();
        assert_eq!(cjson_get_number_value(item).unwrap(), (*x as f64).to_bits());
    }
    let infinite = cjson_create_float_array(&[f32::INFINITY.to_bits(), f32::NAN.to_bits()], 2).unwrap();
    let first = cjson_get_number_value(cjson_get_array_item(&infinite, 0).unwrap()).unwrap();
    let second = cjson_get_number_value(cjson_get_array_item(&infinite, 1).unwrap()).unwrap();
    assert_eq!(f64::from_bits(first), f64::INFINITY);
    assert!(f64::from_bits(second).is_nan());

    let doubles = [1.0f64, 2.5, -1e-10];
    let bits: Vec<u64> = doubles.iter().map(|x| x.to_bits()).collect();
    assert_eq!(text(&cjson_create_double_array(&bits, 3).unwrap()), "[1,2.5,-1e-10]");

    let strings = ["Alice", "Bob", "Chloe", "Dan", "Eyal"];
    let arr = cjson_create_string_array(&strings, 5).unwrap();
    assert_eq!(cjson_get_array_size(&arr), Ok(5));
    assert_eq!(text(cjson_get_array_item(&arr, 2).unwrap()), "\"Chloe\"");
    assert_eq!(
        cjson_create_string_array(&["a", "b\0"], 1).unwrap_err(),
        JsonError::CStringError(1)
    );
    assert_eq!(cjson_create_string_array(&["a"], 2).unwrap_err(), JsonError::NullPointer);
}

#[test]
fn array_operations() {
    let mut arr = cjson_create_int_array(&[1, 2, 3, 4], 4).unwrap();
    assert_eq!(cjson_add_item_to_array(&mut arr, num(5.0)), Ok(true));
    assert_eq!(cjson_get_array_size(&arr), Ok(5));
    assert_eq!(cjson_replace_item_in_array(&mut arr, 0, cjson_create_true()), Ok(true));
    assert_eq!(text(&arr), "[true,2,3,4,5]");
    let taken = cjson_detach_item_from_array(&mut arr, 2).unwrap();
    assert_eq!(text(&taken), "3");
    assert_eq!(text(&arr), "[true,2,4,5]");
    assert_eq!(cjson_delete_item_from_array(&mut arr, 3), Ok(()));
    assert_eq!(text(&arr), "[true,2,4]");
    assert_eq!(cjson_insert_item_in_array(&mut arr, 0, cjson_create_null()), Ok(true));
    assert_eq!(text(&arr), "[null,true,2,4]");
}

#[test]
fn array_index_out_of_range_fails_and_changes_nothing() {
    let mut arr = cjson_create_int_array(&[1, 2, 3], 3).unwrap();
    for which in [-1, 3, 4, i32::MAX, i32::MIN] {
        assert_eq!(cjson_get_array_item(&arr, which).unwrap_err(), JsonError::NullPointer);
        assert_eq!(cjson_get_array_item_mut(&mut arr, which).unwrap_err(), JsonError::NullPointer);
        assert_eq!(cjson_insert_item_in_array(&mut arr, which, num(9.0)), Ok(false));
        assert_eq!(cjson_replace_item_in_array(&mut arr, which, num(9.0)), Ok(false));
        assert_eq!(cjson_detach_item_from_array(&mut arr, which).unwrap_err(), JsonError::NullPointer);
        assert_eq!(cjson_delete_item_from_array(&mut arr, which), Err(JsonError::NullPointer));
        assert_eq!(text(&arr), "[1,2,3]");
        assert_eq!(arr.next_handle, 3);
    }
}

#[test]
fn array_operations_on_what_is_no_array_fail() {
    let mut obj = parse("{\"a\":1}");
    mismatch(cjson_get_array_size(&obj), "cannot get array size for a non-array Json item");
    mismatch(cjson_get_array_item(&obj, 0), "cannot get array item from a non-array Json item");
    mismatch(
        cjson_add_item_to_array(&mut obj, num(1.0)),
        "cannot add item to a non-array Json item",
    );
    mismatch(
        cjson_add_item_reference_to_array(&mut obj, &num(1.0)),
        "cannot add item to a non-array Json item",
    );
    mismatch(
        cjson_insert_item_in_array(&mut obj, 0, num(1.0)),
        "cannot insert item in a non-array Json item",
    );
    mismatch(
        cjson_replace_item_in_array(&mut obj, 0, num(1.0)),
        "cannot replace item in a non-array Json item",
    );
    mismatch(
        cjson_detach_item_from_array(&mut obj, 0),
        "cannot detach item from a non-array Json item",
    );
    mismatch(
        cjson_delete_item_from_array(&mut obj, 0),
        "cannot delete item from a non-array Json item",
    );
    assert_eq!(text(&obj), "{\"a\":1}");
}

#[test]
fn object_operations() {
    let mut obj = cjson_create_object();
    cjson_add_null_to_object(&mut obj, "n").unwrap();
    cjson_add_true_to_object(&mut obj, "t").unwrap();
    cjson_add_false_to_object(&mut obj, "f").unwrap();
    cjson_add_bool_to_object(&mut obj, "b", true).unwrap();
    cjson_add_number_to_object(&mut obj, "x", 20.0f64.to_bits()).unwrap();
    cjson_add_string_to_object(&mut obj, "s", "Nemuel").unwrap();
    cjson_add_raw_to_object(&mut obj, "r", "[ 1 ]").unwrap();
    {
        let inner = cjson_add_object_to_object(&mut obj, "o").unwrap();
        cjson_add_number_to_object(inner, "deep", 1.0f64.to_bits()).unwrap();
    }
    {
        let list = cjson_add_array_to_object(&mut obj, "a").unwrap();
        cjson_add_item_to_array(list, num(7.0)).unwrap();
    }
    assert_eq!(
        text(&obj),
        "{\"n\":null,\"t\":true,\"f\":false,\"b\":true,\"x\":20,\"s\":\"Nemuel\",\"r\":[ 1 ],\"o\":{\"deep\":1},\"a\":[7]}"
    );
    assert_eq!(cjson_replace_item_in_object(&mut obj, "T", num(1.0)), Ok(true));
    assert_eq!(cjson_replace_item_in_object_case_sensitive(&mut obj, "F", num(2.0)), Ok(false));
    assert_eq!(cjson_replace_item_in_object_case_sensitive(&mut obj, "f", num(2.0)), Ok(true));
    assert_eq!(cjson_replace_item_in_object(&mut obj, "missing", num(2.0)), Ok(false));
    let taken = cjson_detach_item_from_object(&mut obj, "S").unwrap();
    assert_eq!(text(&taken), "\"Nemuel\"");
    assert_eq!(taken.key.as_deref(), Some(&b"s"[..]));
    assert_eq!(cjson_detach_item_from_object(&mut obj, "s").unwrap_err(), JsonError::NullPointer);
    assert_eq!(cjson_delete_item_from_object(&mut obj, "R"), Ok(()));
    assert_eq!(cjson_delete_item_from_object(&mut obj, "r"), Err(JsonError::NullPointer));
    assert_eq!(
        text(&obj),
        "{\"n\":null,\"T\":1,\"f\":2,\"b\":true,\"x\":20,\"o\":{\"deep\":1},\"a\":[7]}"
    );
    assert_eq!(cjson_add_item_to_object_cs(&mut obj, "const", cjson_create_null()), Ok(true));
    assert!(cjson_get_object_item(&obj, "const").unwrap().key_is_const);
    assert!(!cjson_get_object_item(&obj, "n").unwrap().key_is_const);
}

#[test]
fn object_operations_on_what_is_no_object_fail() {
    let mut arr = parse("[1]");
    let message = "cannot add item to a non-object Json item";
    mismatch(cjson_add_item_to_object(&mut arr, "k", num(1.0)), message);
    mismatch(cjson_add_item_to_object_cs(&mut arr, "k", num(1.0)), message);
    mismatch(cjson_add_item_reference_to_object(&mut arr, "k", &num(1.0)), message);
    mismatch(cjson_add_null_to_object(&mut arr, "k").map(|_| ()), message);
    mismatch(cjson_add_true_to_object(&mut arr, "k").map(|_| ()), message);
    mismatch(cjson_add_false_to_object(&mut arr, "k").map(|_| ()), message);
    mismatch(cjson_add_bool_to_object(&mut arr, "k", true).map(|_| ()), message);
    mismatch(cjson_add_number_to_object(&mut arr, "k", 0).map(|_| ()), message);
    mismatch(cjson_add_string_to_object(&mut arr, "k", "v").map(|_| ()), message);
    mismatch(cjson_add_raw_to_object(&mut arr, "k", "v").map(|_| ()), message);
    mismatch(cjson_add_object_to_object(&mut arr, "k").map(|_| ()), message);
    mismatch(cjson_add_array_to_object(&mut arr, "k").map(|_| ()), message);
    mismatch(
        cjson_replace_item_in_object(&mut arr, "k", num(1.0)),
        "cannot replace item in a non-object Json item",
    );
    mismatch(
        cjson_detach_item_from_object(&mut arr, "k"),
        "cannot detach item from a non-object Json item",
    );
    mismatch(
        cjson_delete_item_from_object(&mut arr, "k"),
        "cannot delete item from a non-object Json item",
    );
    assert_eq!(text(&arr), "[1]");
}

#[test]
fn members_are_changed_in_place() {
    let mut doc = parse("{\"a\":{\"b\":[1,2]},\"c\":3}");
    {
        let a = cjson_get_object_item_mut(&mut doc, "A").unwrap();
        let b = cjson_get_object_item_case_sensitive_mut(a, "b").unwrap();
        cjson_add_item_to_array(b, num(3.0)).unwrap();
        let first = cjson_get_array_item_mut(b, 0).unwrap();
        cjson_set_number_helper(first, 10.0f64.to_bits()).unwrap();
    }
    assert_eq!(text(&doc), "{\"a\":{\"b\":[10,2,3]},\"c\":3}");
    assert_eq!(
        cjson_get_object_item_case_sensitive_mut(&mut doc, "A").unwrap_err(),
        JsonError::NullPointer
    );
}

#[test]
fn keys_follow_the_container() {
    let mut obj = parse("{\"k\":[1]}");
    let member = cjson_detach_item_from_object(&mut obj, "k").unwrap();
    assert!(member.key.is_some());
    let mut arr = cjson_create_array();
    cjson_add_item_to_array(&mut arr, member).unwrap();
    assert!(cjson_get_array_item(&arr, 0).unwrap().key.is_none());
    let element = cjson_detach_item_from_array(&mut arr, 0).unwrap();
    cjson_add_item_to_object(&mut obj, "again", element).unwrap();
    assert_eq!(text(&obj), "{\"again\":[1]}");
}

#[test]
fn detaching_and_attaching_keeps_the_subtree() {
    let mut source = parse("[0,{\"x\":[1,{\"y\":\"z\"}],\"n\":null},2]");
    let subtree = cjson_detach_item_from_array(&mut source, 1).unwrap();
    let before = text(&subtree);
    let copy = cjson_duplicate(&subtree, true);
    let mut target = cjson_create_object();
    cjson_add_item_to_object(&mut target, "moved", subtree).unwrap();
    let moved = cjson_get_object_item(&target, "moved").unwrap();
    assert_eq!(text(moved), before);
    assert!(cjson_compare(moved, &copy, true));
    assert_eq!(text(&source), "[0,2]");
}

#[test]
fn handles_identify_members() {
    let mut arr = parse("[\"a\",\"b\",\"c\"]");
    let handle = cjson_get_array_item(&arr, 1).unwrap().handle;
    cjson_insert_item_in_array(&mut arr, 0, cjson_create_null()).unwrap();
    assert_eq!(cjson_get_array_item(&arr, 2).unwrap().handle, handle);
    assert!(cjson_replace_item_via_pointer(&mut arr, handle, num(1.0)));
    assert_eq!(text(&arr), "[null,\"a\",1,\"c\"]");
    assert!(!cjson_replace_item_via_pointer(&mut arr, handle, num(2.0)));
    assert!(cjson_detach_item_via_pointer(&mut arr, handle).is_none());
    let last = cjson_get_array_item(&arr, 3).unwrap().handle;
    let taken = cjson_detach_item_via_pointer(&mut arr, last).unwrap();
    assert_eq!(text(&taken), "\"c\"");
    assert_eq!(text(&arr), "[null,\"a\",1]");

    let mut obj = parse("{\"k\":1,\"l\":2}");
    let l = cjson_get_object_item(&obj, "l").unwrap().handle;
    assert!(cjson_replace_item_via_pointer(&mut obj, l, cjson_create_true()));
    assert_eq!(text(&obj), "{\"k\":1,\"l\":true}");
    assert!(cjson_detach_item_via_pointer(&mut cjson_create_null(), 0).is_none());
}

#[test]
fn a_container_without_a_handle_left_takes_no_member() {
    let mut arr = parse("[1]");
    arr.next_handle = u64::MAX;
    assert_eq!(cjson_add_item_to_array(&mut arr, num(2.0)), Ok(false));
    assert_eq!(cjson_insert_item_in_array(&mut arr, 0, num(2.0)), Ok(false));
    assert_eq!(cjson_replace_item_in_array(&mut arr, 0, num(2.0)), Ok(false));
    assert_eq!(text(&arr), "[1]");
    let mut obj = cjson_create_object();
    obj.next_handle = u64::MAX;
    assert_eq!(cjson_add_item_to_object(&mut obj, "k", num(2.0)), Ok(false));
    assert_eq!(
        cjson_add_null_to_object(&mut obj, "k").map(|_| ()).unwrap_err(),
        JsonError::NullPointer
    );
}

#[test]
fn references_are_marked_copies() {
    let target = parse("[1,2]");
    let reference = cjson_create_array_reference(&target).unwrap();
    assert!(reference.is_type_array());
    assert!(reference.is_reference);
    assert_eq!(text(&reference), "[1,2]");
    let object = parse("{\"a\":1}");
    let reference = cjson_create_object_reference(&object).unwrap();
    assert!(reference.is_type_object());
    assert!(reference.is_reference);
    mismatch(
        cjson_create_array_reference(&object),
        "cannot create array reference to a non-array Json item",
    );
    mismatch(
        cjson_create_object_reference(&target),
        "cannot create object reference to a non-object Json item",
    );

    let mut arr = cjson_create_int_array(&[1, 2, 3, 4], 4).unwrap();
    let item = num(5.0);
    assert_eq!(cjson_add_item_reference_to_array(&mut arr, &item), Ok(true));
    assert_eq!(cjson_get_array_size(&arr), Ok(5));
    assert!(cjson_get_array_item(&arr, 4).unwrap().is_reference);
    let mut obj = cjson_create_object();
    assert_eq!(cjson_add_item_reference_to_object(&mut obj, "ref", &target), Ok(true));
    assert_eq!(text(&obj), "{\"ref\":[1,2]}");
    assert!(cjson_get_object_item(&obj, "ref").unwrap().is_reference);
}

#[test]
fn delete_counts_what_a_node_owns() {
    assert_eq!(cjson_delete(cjson_create_null()), 1);
    assert_eq!(cjson_delete(parse("[1,[2,3],{\"a\":null}]")), 7);
    let target = parse("[1,2,3]");
    let reference = cjson_create_array_reference(&target).unwrap();
    assert_eq!(cjson_delete(reference), 1);
    assert_eq!(cjson_delete(target), 4);
}

#[test]
fn a_deep_copy_equals_its_source() {
    let source = parse("{\"a\":[1,2,{\"b\":\"c\"}],\"d\":null,\"e\":-0.5,\"A\":true}");
    let copy = cjson_duplicate(&source, true);
    assert!(cjson_compare(&copy, &source, true));
    assert!(cjson_compare(&copy, &source, false));
    assert_eq!(text(&copy), text(&source));
    let mut marked = cjson_create_string_reference("s".to_string()).unwrap();
    marked.key_is_const = true;
    let copy = cjson_duplicate(&marked, true);
    assert!(!copy.is_reference);
    assert!(!copy.key_is_const);
}

#[test]
fn a_shallow_copy_equals_only_what_has_no_members() {
    for source in ["[]", "{}", "1", "\"s\"", "null"] {
        let tree = parse(source);
        assert!(cjson_compare(&cjson_duplicate(&tree, false), &tree, true), "{}", source);
    }
    for source in ["[1]", "{\"a\":1}", "[[]]"] {
        let tree = parse(source);
        let copy = cjson_duplicate(&tree, false);
        assert!(!cjson_compare(&copy, &tree, true), "{}", source);
        assert!(!cjson_compare(&copy, &tree, false), "{}", source);
        assert_eq!(cjson_get_array_size(&copy).unwrap_or(0), 0);
    }
}

#[test]
fn comparison_rules() {
    let eq = |a: &str, b: &str, cs: bool| cjson_compare(&parse(a), &parse(b), cs);
    assert!(eq("null", "null", true));
    assert!(!eq("null", "false", true));
    assert!(!eq("true", "false", true));
    assert!(eq("0", "-0", true));
    assert!(!eq("1", "\"1\"", true));
    assert!(eq("\"abc\"", "\"abc\"", true));
    assert!(!eq("\"abc\"", "\"ABC\"", true));
    assert!(eq("\"abc\"", "\"ABC\"", false));
    assert!(eq("[1,2]", "[1,2]", true));
    assert!(!eq("[1,2]", "[2,1]", true));
    assert!(!eq("[1,2]", "[1,2,3]", true));
    assert!(eq("{\"a\":1,\"b\":2}", "{\"b\":2,\"a\":1}", true));
    assert!(!eq("{\"a\":1}", "{\"a\":1,\"b\":2}", true));
    assert!(!eq("{\"a\":1,\"b\":2}", "{\"a\":1}", true));
    assert!(!eq("{\"a\":1}", "{\"A\":1}", true));
    assert!(eq("{\"a\":1}", "{\"A\":1}", false));
    assert!(!eq("{\"a\":1}", "{\"a\":2}", true));
    assert!(eq("{\"a\":1,\"a\":2}", "{\"a\":2,\"a\":1}", true));
    let nan = num(f64::NAN);
    assert!(!cjson_compare(&nan, &nan, true));
    assert!(!cjson_compare(&cjson_duplicate(&nan, true), &nan, true));
}
