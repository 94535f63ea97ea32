use vmdl_rs::json::to_json;
use vmdl_rs::parser::parse;
use vmdl_rs::render::{indent_fits, to_text};
use vmdl_rs::value::Value;

fn project_demo() -> Value {
    Value::Object(vec![("Project".to_string(), Value::String("demo".to_string()))])
}

#[test]
fn json_of_single_leaf() {
    assert_eq!(to_json(&project_demo()), "{\n  \"Project\": \"demo\"\n}");
}

#[test]
fn text_of_single_leaf() {
    assert_eq!(to_text(&project_demo(), 0), "Project = demo\n");
}

#[test]
fn json_of_nested_object() {
    let v = parse("a:\nb = c").unwrap();
    assert_eq!(to_json(&v), "{\n  \"a\": {\n    \"b\": \"c\"\n  }\n}");
}

#[test]
fn json_of_leaf_value() {
    assert_eq!(to_json(&Value::String("x\"y".to_string())), "\"x\\\"y\"");
}

#[test]
fn text_of_nested_object_is_indented() {
    let v = parse("a:\nb = c\nd:\ne = f").unwrap();
    assert_eq!(to_text(&v, 0), "a:\n    b = c\n    d:\n        e = f\n");
}

#[test]
fn text_with_start_indent() {
    assert_eq!(to_text(&project_demo(), 2), "  Project = demo\n");
}

#[test]
fn text_of_leaf_is_payload() {
    assert_eq!(to_text(&Value::String("plain".to_string()), 8), "plain");
}

#[test]
fn parse_text_parse_round_trip() {
    let first = parse("x = 1\nsrv.port = 80\nsrv:\nhost = h\nopts.debug = yes").unwrap();
    let text = to_text(&first, 0);
    let second = parse(&text).unwrap();
    assert_eq!(to_text(&second, 0), text);
    assert_eq!(to_json(&second), to_json(&first));
}

#[test]
fn indent_fits_ordinary_values() {
    let v = parse("a:\nb:\nc = d").unwrap();
    assert!(indent_fits(&v, 0));
    assert!(indent_fits(&Value::String("x".to_string()), usize::MAX));
}

#[test]
fn indent_fits_rejects_overflowing_indent() {
    let v = parse("a:\nb = c").unwrap();
    assert!(!indent_fits(&v, usize::MAX - 3));
    assert!(indent_fits(&v, usize::MAX - 4));
    assert!(indent_fits(&project_demo(), usize::MAX));
}

#[test]
fn json_members_in_key_order() {
    let v = parse("b = 1\na = 2").unwrap();
    assert_eq!(to_json(&v), "{\n  \"a\": \"2\",\n  \"b\": \"1\"\n}");
}

#[test]
fn json_of_empty_document() {
    let v = parse("# nothing\n").unwrap();
    assert_eq!(to_json(&v), "{}");
    assert_eq!(to_text(&v, 0), "");
}

#[test]
fn flat_document_round_trip() {
    let first = parse("b = 2\n  a =   x y\n# c\nz: last").unwrap();
    let text = to_text(&first, 0);
    assert_eq!(text, "b = 2\na = x y\nz = last\n");
    let second = parse(&text).unwrap();
    assert_eq!(to_text(&second, 0), text);
}

#[test]
fn sibling_containers_do_not_round_trip() {
    let first = parse("a.x = 1\nb.y = 2").unwrap();
    let text = to_text(&first, 0);
    assert_eq!(text, "a:\n    x = 1\nb:\n    y = 2\n");
    let second = parse(&text).unwrap();
    assert!(second.get("b").is_none());
    assert_eq!(second.get("a").unwrap().get("b").unwrap().get_string("y").unwrap(), "2");
}

#[test]
fn json_of_empty_object_value() {
    assert_eq!(to_json(&Value::Object(vec![])), "{}");
    assert_eq!(to_json(&Value::String("demo".to_string())), "\"demo\"");
}
