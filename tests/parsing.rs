use vmdl_rs::parser::{parse, ParseError};
use vmdl_rs::value::Value;

fn leaf<'a>(v: &'a Value, key: &str) -> Option<&'a str> {
    v.get_string(key).map(|s| s.as_str())
}

fn entry_count(v: &Value) -> usize {
    v.as_object().map(|es| es.len()).unwrap_or(0)
}

#[test]
fn last_write_wins() {
    let v = parse("a = 1\na = 2").unwrap();
    assert_eq!(leaf(&v, "a"), Some("2"));
    assert_eq!(entry_count(&v), 1);
}

#[test]
fn last_write_wins_inside_context() {
    let v = parse("obj:\nx = 1\nx = 3").unwrap();
    let obj = v.get("obj").unwrap();
    assert_eq!(leaf(obj, "x"), Some("3"));
    assert_eq!(entry_count(obj), 1);
}

#[test]
fn object_declaration_sets_context() {
    let v = parse("obj:\nx = 1").unwrap();
    let obj = v.get("obj").unwrap();
    assert_eq!(leaf(obj, "x"), Some("1"));
    assert_eq!(entry_count(&v), 1);
}

#[test]
fn dotted_key_builds_nesting() {
    let v = parse("obj.x = 1").unwrap();
    let obj = v.get("obj").unwrap();
    assert_eq!(leaf(obj, "x"), Some("1"));
    assert_eq!(entry_count(obj), 1);
}

#[test]
fn dotted_key_inside_context_is_relative() {
    let v = parse("obj:\nobj.x = 1").unwrap();
    let inner = v.get("obj").unwrap().get("obj").unwrap();
    assert_eq!(leaf(inner, "x"), Some("1"));
}

#[test]
fn context_only_deepens() {
    let v = parse("a:\nx = 1\nb:\ny = 2").unwrap();
    let a = v.get("a").unwrap();
    assert_eq!(leaf(a, "x"), Some("1"));
    let b = a.get("b").unwrap();
    assert_eq!(leaf(b, "y"), Some("2"));
    assert_eq!(entry_count(&v), 1);
}

#[test]
fn leaf_then_child_is_key_conflict() {
    match parse("a = 1\na.b = 2") {
        Err(ParseError::KeyConflict { dotted_path }) => assert_eq!(dotted_path, "a"),
        other => panic!("unexpected: {:?}", other),
    }
}

#[test]
fn deep_key_conflict_names_prefix() {
    match parse("a.b = 1\na.b.c.d = 2") {
        Err(ParseError::KeyConflict { dotted_path }) => assert_eq!(dotted_path, "a.b"),
        other => panic!("unexpected: {:?}", other),
    }
}

#[test]
fn later_leaf_on_container_is_key_conflict() {
    match parse("a.b = 2\na = 1") {
        Err(ParseError::KeyConflict { dotted_path }) => assert_eq!(dotted_path, "a"),
        other => panic!("unexpected: {:?}", other),
    }
}

#[test]
fn deep_key_conflict_in_either_order() {
    match parse("a.b.c = 2\na.b = 1") {
        Err(ParseError::KeyConflict { dotted_path }) => assert_eq!(dotted_path, "a.b"),
        other => panic!("unexpected: {:?}", other),
    }
}

#[test]
fn declaration_after_children_keeps_container() {
    let v = parse("obj.x = 1\nobj:").unwrap();
    assert_eq!(leaf(v.get("obj").unwrap(), "x"), Some("1"));
}

#[test]
fn malformed_line_wins_over_later_conflict() {
    match parse("a = 1\na.b = 2\njunk") {
        Err(ParseError::MalformedLine { line_number, raw_text }) => {
            assert_eq!(line_number, 3);
            assert_eq!(raw_text, "junk");
        }
        other => panic!("unexpected: {:?}", other),
    }
}

#[test]
fn comment_lines_only_shift_line_numbers() {
    let a = parse("obj:\nx = 1").unwrap();
    let b = parse("obj:\n  # note\n\nx = 1").unwrap();
    assert_eq!(leaf(a.get("obj").unwrap(), "x"), Some("1"));
    assert_eq!(leaf(b.get("obj").unwrap(), "x"), Some("1"));
    match parse("# c\n\nbad") {
        Err(ParseError::MalformedLine { line_number, .. }) => assert_eq!(line_number, 3),
        other => panic!("unexpected: {:?}", other),
    }
}

#[test]
fn comments_and_blank_lines_are_ignored() {
    let a = parse("#comment\n\nkey=val").unwrap();
    let b = parse("key=val").unwrap();
    assert_eq!(leaf(&a, "key"), Some("val"));
    assert_eq!(leaf(&b, "key"), Some("val"));
    assert_eq!(entry_count(&a), 1);
    assert_eq!(entry_count(&b), 1);
}

#[test]
fn indented_comment_is_ignored() {
    let v = parse("   # note: x = y\nk = v").unwrap();
    assert_eq!(leaf(&v, "k"), Some("v"));
    assert_eq!(entry_count(&v), 1);
}

#[test]
fn line_without_separator_is_malformed() {
    match parse("just text") {
        Err(ParseError::MalformedLine { line_number, raw_text }) => {
            assert_eq!(line_number, 1);
            assert_eq!(raw_text, "just text");
        }
        other => panic!("unexpected: {:?}", other),
    }
}

#[test]
fn malformed_line_number_counts_blank_lines() {
    match parse("a = 1\n\n  oops  \r\nb = 2") {
        Err(ParseError::MalformedLine { line_number, raw_text }) => {
            assert_eq!(line_number, 3);
            assert_eq!(raw_text, "  oops  ");
        }
        other => panic!("unexpected: {:?}", other),
    }
}

#[test]
fn crlf_line_endings() {
    let v = parse("a = 1\r\nb = 2\r\n").unwrap();
    assert_eq!(leaf(&v, "a"), Some("1"));
    assert_eq!(leaf(&v, "b"), Some("2"));
}

#[test]
fn whitespace_around_key_and_value_is_trimmed() {
    let v = parse("  key   =   some value  ").unwrap();
    assert_eq!(leaf(&v, "key"), Some("some value"));
}

#[test]
fn first_separator_splits() {
    let v = parse("url: http://example.com/a=b").unwrap();
    assert_eq!(leaf(&v, "url"), Some("http://example.com/a=b"));
}

#[test]
fn empty_values_are_not_materialized() {
    let v = parse("a =\nb:").unwrap();
    assert!(v.get("a").is_none());
    assert!(v.get("b").is_none());
    assert_eq!(entry_count(&v), 0);
}

#[test]
fn empty_document_is_empty_object() {
    let v = parse("").unwrap();
    assert!(v.as_object().is_some());
    assert_eq!(entry_count(&v), 0);
}

#[test]
fn non_ascii_text() {
    let v = parse("größe = ähnlich\u{3000}").unwrap();
    assert_eq!(leaf(&v, "größe"), Some("ähnlich"));
}
