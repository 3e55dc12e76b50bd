use log_opentelemetry::text::{any_to_string, integer_to_string};
use log_opentelemetry::value::{Any, AnyMap};

#[test]
fn bytes_render_as_lowercase_hex() {
    assert_eq!(any_to_string(&Any::Bytes(vec![0xDE, 0xAD])), "dead");
}

#[test]
fn bytes_keep_leading_zero_digits() {
    assert_eq!(any_to_string(&Any::Bytes(vec![0x00, 0x0f, 0xa0, 0xff])), "000fa0ff");
}

#[test]
fn empty_bytes_render_as_empty_text() {
    assert_eq!(any_to_string(&Any::Bytes(Vec::new())), "");
}

#[test]
fn integers_render_in_decimal() {
    assert_eq!(integer_to_string(0), "0");
    assert_eq!(integer_to_string(7), "7");
    assert_eq!(integer_to_string(10), "10");
    assert_eq!(integer_to_string(1234567890), "1234567890");
    assert_eq!(integer_to_string(-1), "-1");
    assert_eq!(integer_to_string(-420), "-420");
}

#[test]
fn extreme_integers_render_in_decimal() {
    assert_eq!(integer_to_string(i64::MAX), "9223372036854775807");
    assert_eq!(integer_to_string(i64::MIN), "-9223372036854775808");
}

#[test]
fn integer_rendering_agrees_with_the_standard_library() {
    let samples: Vec<i64> = vec![0, 1, -1, 9, 10, 99, 100, 101, -999, 1000, 65535, -65536, i64::MAX, i64::MIN];
    for v in samples {
        assert_eq!(integer_to_string(v), format!("{}", v));
    }
}

#[test]
fn truth_values_render_as_words() {
    assert_eq!(any_to_string(&Any::Boolean(true)), "true");
    assert_eq!(any_to_string(&Any::Boolean(false)), "false");
}

#[test]
fn strings_render_verbatim() {
    assert_eq!(any_to_string(&Any::String(String::from("hello world"))), "hello world");
    assert_eq!(any_to_string(&Any::String(String::new())), "");
    assert_eq!(any_to_string(&Any::String(String::from("grüße ✓"))), "grüße ✓");
}

#[test]
fn doubles_render_by_their_text() {
    let v = Any::Double { bits: 1.5f64.to_bits(), text: format!("{}", 1.5f64) };
    assert_eq!(any_to_string(&v), "1.5");
}

#[test]
fn lists_render_in_brackets_with_a_space_between_items() {
    let list = Any::List(vec![Any::Integer(1), Any::Integer(2), Any::Integer(3)]);
    assert_eq!(any_to_string(&list), "[1 2 3]");
}

#[test]
fn list_of_one_item_has_no_space() {
    assert_eq!(any_to_string(&Any::List(vec![Any::Boolean(false)])), "[false]");
}

#[test]
fn nested_lists_render_by_the_same_rule() {
    let list = Any::List(vec![
        Any::List(vec![Any::Boolean(false)]),
        Any::String(String::from("x")),
    ]);
    assert_eq!(any_to_string(&list), "[[false] x]");
}

#[test]
fn empty_items_still_get_their_separators() {
    let list = Any::List(vec![
        Any::String(String::new()),
        Any::List(Vec::new()),
        Any::String(String::new()),
    ]);
    assert_eq!(any_to_string(&list), "[ [] ]");
}

#[test]
fn empty_list_renders_as_brackets() {
    assert_eq!(any_to_string(&Any::List(Vec::new())), "[]");
}

#[test]
fn maps_render_in_braces_in_key_order() {
    let mut map = AnyMap::new();
    map.insert(String::from("n"), Any::Integer(5));
    map.insert(String::from("env"), Any::String(String::from("prod")));
    assert_eq!(any_to_string(&Any::Mapping(map)), "{ env:prodn:5 }");
}

#[test]
fn empty_map_renders_as_braces() {
    assert_eq!(any_to_string(&Any::Mapping(AnyMap::new())), "{  }");
}

#[test]
fn nested_values_render_inside_out() {
    let mut inner = AnyMap::new();
    inner.insert(String::from("k"), Any::List(vec![Any::Boolean(true), Any::Bytes(vec![1, 2])]));
    let outer = Any::List(vec![Any::Mapping(inner), Any::Integer(-3)]);
    assert_eq!(any_to_string(&outer), "[{ k:[true 0102] } -3]");
}

#[test]
fn rendering_does_not_depend_on_insertion_order() {
    let mut forward = AnyMap::new();
    forward.insert(String::from("a"), Any::Integer(1));
    forward.insert(String::from("b"), Any::Integer(2));
    forward.insert(String::from("c"), Any::Integer(3));
    let mut backward = AnyMap::new();
    backward.insert(String::from("c"), Any::Integer(3));
    backward.insert(String::from("b"), Any::Integer(2));
    backward.insert(String::from("a"), Any::Integer(1));
    assert_eq!(forward, backward);
    assert_eq!(any_to_string(&Any::Mapping(forward)), any_to_string(&Any::Mapping(backward)));
}

#[test]
fn rendering_twice_gives_the_same_text() {
    let v = Any::List(vec![Any::Integer(4), Any::String(String::from("x"))]);
    assert_eq!(any_to_string(&v), any_to_string(&v));
}
