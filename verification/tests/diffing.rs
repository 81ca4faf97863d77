use jsondiff::{diff, normalize_value, to_string_pretty, Json};

fn ch(s: &str) -> Vec<char> {
    s.chars().collect()
}

fn num(s: &str) -> Json {
    Json::Num(ch(s))
}

fn st(s: &str) -> Json {
    Json::Str(ch(s))
}

fn obj(entries: Vec<(&str, Json)>) -> Json {
    Json::Obj(entries.into_iter().map(|(k, v)| (ch(k), v)).collect())
}

#[test]
fn object_key_order_ignored() {
    let v1 = obj(vec![("b", num("2")), ("a", num("1"))]);
    let v2 = obj(vec![("a", num("1")), ("b", num("2"))]);
    assert_eq!(diff(v1, v2, 3), "");
}

#[test]
fn array_order_ignored_when_normalized() {
    let v1 = Json::Arr(vec![num("1"), num("2"), num("3")]);
    let v2 = Json::Arr(vec![num("3"), num("2"), num("1")]);
    assert_eq!(diff(v1, v2, 3), "");
}

#[test]
fn array_order_kept_when_not_normalized() {
    let v1 = Json::Arr(vec![num("1"), num("2"), num("3")]);
    let v2 = Json::Arr(vec![num("3"), num("2"), num("1")]);
    let p1 = to_string_pretty(&normalize_value(v1, false));
    let p2 = to_string_pretty(&normalize_value(v2, false));
    assert_ne!(p1, p2);
}

#[test]
fn changed_value_renders_one_hunk() {
    let v1 = obj(vec![("a", num("1"))]);
    let v2 = obj(vec![("a", num("2"))]);
    let out = diff(v1, v2, 3);
    assert!(out.contains("1: -   \"a\": 1\n"));
    assert!(out.contains("1: +   \"a\": 2\n"));
    assert!(out.ends_with("----\n"));
    assert_eq!(out.matches("----").count(), 1);
}

#[test]
fn deep_change_keeps_bounded_context() {
    fn nest(depth: usize, leaf: Json) -> Json {
        let mut v = leaf;
        for i in (0..depth).rev() {
            v = Json::Obj(vec![(format!("k{}", i).chars().collect(), v)]);
        }
        v
    }
    let v1 = nest(8, num("1"));
    let v2 = nest(8, num("2"));
    let doc_lines = to_string_pretty(&normalize_value(v1.clone(), true)).lines().count();
    let out = diff(v1, v2, 3);
    assert!(out.contains("- "));
    assert!(out.contains("+ "));
    // the unchanged ancestor lines appear as context, but only a bounded window
    assert!(out.contains("\"k6\": {\n"));
    assert!(out.contains("\"k7\": 1\n"));
    assert!(out.lines().count() < doc_lines);
    assert!(out.ends_with("----\n"));
}

#[test]
fn reflexive_diff_is_empty() {
    let v = obj(vec![
        ("x", Json::Arr(vec![num("1"), st("two"), Json::Null])),
        ("y", obj(vec![("nested", Json::Bool(true))])),
    ]);
    assert_eq!(diff(v.clone(), v.clone(), 0), "");
    assert_eq!(diff(v.clone(), v, usize::MAX / 2), "");
    let w = Json::Null;
    assert_eq!(diff(w.clone(), w, 7), "");
}

#[test]
fn scalar_change_is_reported() {
    let out = diff(Json::Bool(true), Json::Bool(false), 3);
    assert_eq!(out, "0: - true\n0: + false\n----\n");
}

#[test]
fn array_against_object_is_reported() {
    let out = diff(Json::Arr(vec![]), Json::Obj(vec![]), 3);
    assert!(!out.is_empty());
    assert!(out.contains("0: - []\n"));
    assert!(out.contains("0: + {}\n"));
}

#[test]
fn zero_context_shows_only_changes() {
    let v1 = obj(vec![("a", num("1")), ("b", num("2")), ("c", num("3"))]);
    let v2 = obj(vec![("a", num("1")), ("b", num("9")), ("c", num("3"))]);
    let out = diff(v1, v2, 0);
    assert!(out.contains("2: -   \"b\": 2,\n"));
    assert!(out.contains("2: +   \"b\": 9,\n"));
    assert!(!out.contains("\"a\""));
    assert!(!out.contains("\"c\""));
    assert!(out.ends_with("----\n"));
}

#[test]
fn distinct_number_texts_are_distinguished() {
    let out = diff(num("1"), num("1.0"), 3);
    assert_eq!(out, "0: - 1\n0: + 1.0\n----\n");
}

#[test]
fn carriage_return_line_keeps_engine_form() {
    // a bare carriage return ends a diffed line without gaining a newline,
    // so the next row follows it directly
    let out = diff(num("a\rb"), num("x"), 3);
    assert!(out.contains("- a\r0: - b\n"));
    assert!(out.contains("0: + x\n"));
    assert!(out.ends_with("----\n"));
}
