use jsondiff::{generate_array_key, normalize_value, to_string_pretty, Json};

fn ch(s: &str) -> Vec<char> {
    s.chars().collect()
}

fn num(s: &str) -> Json {
    Json::Num(ch(s))
}

fn obj(entries: Vec<(&str, Json)>) -> Json {
    Json::Obj(entries.into_iter().map(|(k, v)| (ch(k), v)).collect())
}

#[test]
fn normalize_is_idempotent() {
    let v = obj(vec![
        ("b", Json::Arr(vec![num("3"), num("1"), num("2")])),
        ("a", obj(vec![("z", Json::Null), ("y", Json::Bool(false))])),
    ]);
    for na in [true, false] {
        let once = normalize_value(v.clone(), na);
        let twice = normalize_value(once.clone(), na);
        assert_eq!(twice, once);
    }
}

#[test]
fn normalize_sorts_object_keys() {
    let v1 = obj(vec![("b", num("2")), ("a", num("1")), ("c", num("3"))]);
    let v2 = obj(vec![("c", num("3")), ("a", num("1")), ("b", num("2"))]);
    let n1 = normalize_value(v1, true);
    let n2 = normalize_value(v2, true);
    assert_eq!(n1, n2);
    assert_eq!(to_string_pretty(&n1), "{\n  \"a\": 1,\n  \"b\": 2,\n  \"c\": 3\n}");
}

#[test]
fn normalize_sorts_array_elements_by_fingerprint() {
    let v1 = Json::Arr(vec![num("2"), num("1"), num("3")]);
    let v2 = Json::Arr(vec![num("3"), num("2"), num("1")]);
    assert_eq!(normalize_value(v1, true), normalize_value(v2, true));
}

#[test]
fn fingerprint_ties_keep_original_order() {
    // null and the string "__null__" share a fingerprint: the tie is broken by
    // the original element order, so each permutation keeps its own order.
    let v1 = Json::Arr(vec![Json::Null, Json::Str(ch("__null__"))]);
    let n1 = normalize_value(v1, true);
    assert_eq!(n1, Json::Arr(vec![Json::Null, Json::Str(ch("__null__"))]));
    let v2 = Json::Arr(vec![Json::Str(ch("__null__")), Json::Null]);
    let n2 = normalize_value(v2, true);
    assert_eq!(n2, Json::Arr(vec![Json::Str(ch("__null__")), Json::Null]));
}

#[test]
fn array_keys_are_structural_fingerprints() {
    assert_eq!(generate_array_key(&Json::Null), "__null__");
    assert_eq!(generate_array_key(&Json::Bool(true)), "__true__");
    assert_eq!(generate_array_key(&Json::Bool(false)), "__false__");
    assert_eq!(generate_array_key(&num("42")), "42");
    assert_eq!(generate_array_key(&Json::Str(ch("hi"))), "hi");
    let arr = Json::Arr(vec![num("1"), Json::Bool(true)]);
    assert_eq!(generate_array_key(&arr), "1__true__");
    let o = obj(vec![("a", num("1")), ("b", Json::Arr(vec![num("2")]))]);
    assert_eq!(generate_array_key(&normalize_value(o, true)), "/a:1/b:[2]");
}

#[test]
fn pretty_form_matches_convention() {
    assert_eq!(to_string_pretty(&Json::Null), "null");
    assert_eq!(to_string_pretty(&Json::Arr(vec![])), "[]");
    assert_eq!(to_string_pretty(&Json::Obj(vec![])), "{}");
    let v = obj(vec![("a", Json::Arr(vec![num("1"), num("2")]))]);
    assert_eq!(to_string_pretty(&v), "{\n  \"a\": [\n    1,\n    2\n  ]\n}");
}

#[test]
fn strings_are_escaped() {
    let v = Json::Str(ch("a\"b\\c\n\t\u{1}"));
    assert_eq!(to_string_pretty(&v), "\"a\\\"b\\\\c\\n\\t\\u0001\"");
}

#[test]
fn number_texts_render_unchanged() {
    assert_eq!(to_string_pretty(&num("-2.5")), "-2.5");
    assert_eq!(to_string_pretty(&num("1e30")), "1e30");
    assert_eq!(to_string_pretty(&num("0")), "0");
}

#[test]
fn control_characters_use_hex_escapes() {
    let v = Json::Str(ch("\u{1f}\u{10}"));
    assert_eq!(to_string_pretty(&v), "\"\\u001f\\u0010\"");
}

#[test]
fn objects_sort_even_when_arrays_do_not() {
    let v = obj(vec![("b", num("2")), ("a", Json::Arr(vec![num("2"), num("1")]))]);
    let n = normalize_value(v, false);
    assert_eq!(
        to_string_pretty(&n),
        "{\n  \"a\": [\n    2,\n    1\n  ],\n  \"b\": 2\n}"
    );
}

#[test]
fn objects_inside_arrays_share_one_canonical_form() {
    let e1 = obj(vec![("x", num("1")), ("y", num("2"))]);
    let e2 = obj(vec![("y", num("2")), ("x", num("1"))]);
    let n1 = normalize_value(Json::Arr(vec![e1]), true);
    let n2 = normalize_value(Json::Arr(vec![e2]), true);
    assert_eq!(n1, n2);
}
