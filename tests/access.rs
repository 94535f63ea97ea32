use vmdl_rs::parser::parse;
use vmdl_rs::value::Value;

#[test]
fn leaf_accessors() {
    let v = Value::String("s".to_string());
    assert_eq!(v.as_string().map(|s| s.as_str()), Some("s"));
    assert!(v.as_object().is_none());
    assert!(v.get("s").is_none());
    assert!(v.get_string("s").is_none());
    assert!(v.get_object("s").is_none());
}

#[test]
fn container_accessors() {
    let v = parse("Project = demo\nEnvironments.Staging.Route = /stage").unwrap();
    assert!(v.as_string().is_none());
    assert_eq!(v.get_string("Project").map(|s| s.as_str()), Some("demo"));
    assert!(v.get_object("Project").is_none());
    assert!(v.get_string("Environments").is_none());
    let envs = v.get_object("Environments").unwrap();
    assert_eq!(envs.len(), 1);
    let staging = v.get("Environments").unwrap().get("Staging").unwrap();
    assert_eq!(staging.get_string("Route").map(|s| s.as_str()), Some("/stage"));
    assert!(v.get("Missing").is_none());
}

#[test]
fn display_text_of_leaf_and_container() {
    assert_eq!(Value::String("demo".to_string()).display_text(), "demo");
    assert_eq!(Value::Object(vec![]).display_text(), "<Object>");
    let v = parse("a = 1").unwrap();
    assert_eq!(v.display_text(), "<Object>");
}
