use toml_cli::check_eq;
use toml_cli::codec::{int_literal, render, RenderError};
use toml_cli::command::{get_value, set_value, ToolError};
use toml_cli::document::{Entry, Node, Table, Value};
use toml_cli::keypath::{KeyPath, KeySegment};
use toml_cli::resolve::{assign, get_node, ResolveError};

fn text(n: &str, v: &str) -> (String, Node) {
    (n.to_string(), Node::Leaf(Value::Str(v.to_string())))
}

fn table(items: Vec<(String, Node)>) -> Table {
    let mut t = Table::new();
    for (k, n) in items {
        t.push(k, n);
    }
    t
}

fn sub(n: &str, items: Vec<(String, Node)>) -> (String, Node) {
    (n.to_string(), Node::Table(table(items)))
}

// key = "value"; int = 17; bool = true; bare-Key_1 = "bare"; "quoted key‽" = "quoted";
// "" = "empty"; dotted.a = "dotted-a"; dotted . b = "dotted-b";
// [foo] x = "foo-x"; y.yy = "foo-yy"
fn input() -> Table {
    table(vec![
        text("key", "value"),
        ("int".to_string(), Node::Leaf(Value::Int(17))),
        ("bool".to_string(), Node::Leaf(Value::Bool(true))),
        text("bare-Key_1", "bare"),
        text("quoted key‽", "quoted"),
        text("", "empty"),
        sub("dotted", vec![text("a", "dotted-a"), text("b", "dotted-b")]),
        sub("foo", vec![text("x", "foo-x"), sub("y", vec![text("yy", "foo-yy")])]),
    ])
}

fn json_line(s: &str) -> String {
    format!("{}\n", serde_json::to_string(s).unwrap())
}

// [a] b = "c"; [x] y = "z"
fn two_tables() -> Table {
    table(vec![sub("a", vec![text("b", "c")]), sub("x", vec![text("y", "z")])])
}

#[test]
fn get_string() {
    assert!(check_eq(&json_line("value"), &get_value(&input(), "key", false).unwrap()));
}

#[test]
fn get_int() {
    assert_eq!(get_value(&input(), "int", false).unwrap(), "17\n");
}

#[test]
fn get_bool() {
    assert_eq!(get_value(&input(), "bool", false).unwrap(), "true\n");
}

#[test]
fn get_bool_false() {
    let t = table(vec![("f".to_string(), Node::Leaf(Value::Bool(false)))]);
    assert_eq!(get_value(&t, "f", false).unwrap(), "false\n");
}

#[test]
fn get_bare_key() {
    assert_eq!(get_value(&input(), "bare-Key_1", false).unwrap(), json_line("bare"));
}

#[test]
fn get_quoted_key() {
    assert_eq!(get_value(&input(), "\"quoted key‽\"", false).unwrap(), json_line("quoted"));
}

#[test]
fn get_quoted_plain_key() {
    assert_eq!(get_value(&input(), "\"key\"", false).unwrap(), json_line("value"));
}

#[test]
fn get_empty_key() {
    assert_eq!(get_value(&input(), "\"\"", false).unwrap(), json_line("empty"));
}

#[test]
fn get_dotted_key() {
    assert_eq!(get_value(&input(), "dotted.a", false).unwrap(), json_line("dotted-a"));
}

#[test]
fn get_dotted_spaced_key() {
    assert_eq!(get_value(&input(), "dotted.b", false).unwrap(), json_line("dotted-b"));
    assert_eq!(get_value(&input(), "dotted . b", false).unwrap(), json_line("dotted-b"));
    assert_eq!(get_value(&input(), " dotted\t.\"b\" ", false).unwrap(), json_line("dotted-b"));
}

#[test]
fn get_nested() {
    assert_eq!(get_value(&input(), "foo.x", false).unwrap(), json_line("foo-x"));
}

#[test]
fn get_nested_dotted() {
    assert_eq!(get_value(&input(), "foo.y.yy", false).unwrap(), json_line("foo-yy"));
}

#[test]
fn get_string_raw() {
    assert!(check_eq("value\n", &get_value(&input(), "key", true).unwrap()));
}

#[test]
fn get_raw_unescaped() {
    let t = table(vec![text("q", "a \"b\" \\ c")]);
    assert_eq!(get_value(&t, "q", true).unwrap(), "a \"b\" \\ c\n");
    assert_eq!(get_value(&t, "q", false).unwrap(), "\"a \\\"b\\\" \\\\ c\"\n");
}

#[test]
fn get_raw_non_string() {
    assert_eq!(get_value(&input(), "int", true), Err(ToolError::NotAString));
    assert_eq!(get_value(&input(), "foo", true), Err(ToolError::NotAString));
}

#[test]
fn get_table_unsupported() {
    assert_eq!(get_value(&input(), "foo", false), Err(ToolError::Unsupported));
    let t = table(vec![("f".to_string(), Node::Leaf(Value::Other("1.5".to_string())))]);
    assert_eq!(get_value(&t, "f", false), Err(ToolError::Unsupported));
}

#[test]
fn get_missing() {
    assert_eq!(get_value(&input(), "nosuchkey", false), Err(ToolError::NotFound));
    assert_eq!(get_value(&input(), "foo.nosuchkey", false), Err(ToolError::NotFound));
    assert_eq!(get_value(&input(), "nosuchkey.x", false), Err(ToolError::NotFound));
}

#[test]
fn get_through_string() {
    assert_eq!(get_value(&input(), "key.sub", false), Err(ToolError::TypeConflict));
}

#[test]
fn get_bad_path() {
    for p in ["", "a.", ".a", "a..b", "\"abc", "a b", "a.\"x\"y", "\"\\q\"", "é"] {
        assert_eq!(get_value(&input(), p, false), Err(ToolError::PathSyntax), "{}", p);
    }
}

#[test]
fn set_string_existing() {
    let mut t = two_tables();
    assert_eq!(set_value(&mut t, "x.y", "new".to_string()), Ok(()));
    let expected = table(vec![sub("a", vec![text("b", "c")]), sub("x", vec![text("y", "new")])]);
    assert_eq!(t, expected);
}

#[test]
fn set_string() {
    let mut t = two_tables();
    assert_eq!(set_value(&mut t, "x.z", "123".to_string()), Ok(()));
    let expected = table(vec![
        sub("a", vec![text("b", "c")]),
        sub("x", vec![text("y", "z"), text("z", "123")]),
    ]);
    assert_eq!(t, expected);
}

#[test]
fn set_replaces_in_place() {
    let mut t = input();
    assert_eq!(set_value(&mut t, "int", "x".to_string()), Ok(()));
    assert_eq!(t.entries[1], Entry { key: "int".to_string(), node: Node::Leaf(Value::Str("x".to_string())) });
    assert_eq!(t.entries.len(), 8);
    let before = input();
    for i in 0..8 {
        if i != 1 {
            assert_eq!(t.entries[i], before.entries[i]);
        }
    }
}

#[test]
fn set_creates_tables() {
    let mut t = two_tables();
    assert_eq!(set_value(&mut t, "n.m.k", "v".to_string()), Ok(()));
    let expected = table(vec![
        sub("a", vec![text("b", "c")]),
        sub("x", vec![text("y", "z")]),
        sub("n", vec![sub("m", vec![text("k", "v")])]),
    ]);
    assert_eq!(t, expected);
}

#[test]
fn set_then_get() {
    let mut t = input();
    for (p, v) in [("foo.y.yy", "1"), ("foo.new", "two"), ("a.b.c", "3"), ("\"quoted key‽\"", "q")] {
        assert_eq!(set_value(&mut t, p, v.to_string()), Ok(()));
        assert_eq!(get_value(&t, p, false).unwrap(), json_line(v));
    }
}

#[test]
fn set_through_string() {
    let mut t = input();
    assert_eq!(set_value(&mut t, "key.sub", "v".to_string()), Err(ToolError::TypeConflict));
    assert_eq!(t, input());
    assert_eq!(set_value(&mut t, "foo.x.y.z", "v".to_string()), Err(ToolError::TypeConflict));
    assert_eq!(t, input());
}

#[test]
fn set_over_table() {
    let mut t = input();
    assert_eq!(set_value(&mut t, "foo.y", "v".to_string()), Err(ToolError::TypeConflict));
    assert_eq!(t, input());
}

#[test]
fn set_bad_path() {
    let mut t = input();
    assert_eq!(set_value(&mut t, "a..b", "v".to_string()), Err(ToolError::PathSyntax));
    assert_eq!(t, input());
}

#[test]
fn parse_segments() {
    let p = KeyPath::parse(" a . \"b.c\\\"\\\\\\t\" .d-1_X").unwrap();
    assert_eq!(
        p.segments,
        vec![
            KeySegment::Bare("a".to_string()),
            KeySegment::Quoted("b.c\"\\\t".to_string()),
            KeySegment::Bare("d-1_X".to_string()),
        ]
    );
    assert_eq!(p.keys(), vec!["a".to_string(), "b.c\"\\\t".to_string(), "d-1_X".to_string()]);
}

#[test]
fn parse_empty_quoted() {
    let p = KeyPath::parse("\"\"").unwrap();
    assert_eq!(p.segments, vec![KeySegment::Quoted(String::new())]);
}

#[test]
fn parse_errors() {
    assert!(KeyPath::parse("").is_err());
    assert!(KeyPath::parse("   ").is_err());
    assert_eq!(KeyPath::parse("ab c").unwrap_err().position, 3);
    assert!(KeyPath::parse("a.\"open").is_err());
}

#[test]
fn resolve_directly() {
    let t = input();
    let keys = vec!["foo".to_string(), "y".to_string(), "yy".to_string()];
    assert_eq!(get_node(&t, &keys), Ok(&Node::Leaf(Value::Str("foo-yy".to_string()))));
    assert_eq!(get_node(&t, &vec![]), Err(ResolveError::NotFound));
    let mut t = input();
    assert_eq!(assign(&mut t, &vec![], "v".to_string()), Err(ResolveError::NotFound));
}

#[test]
fn integers() {
    assert_eq!(int_literal(0), "0");
    assert_eq!(int_literal(17), "17");
    assert_eq!(int_literal(-120), "-120");
    assert_eq!(int_literal(i64::MAX), "9223372036854775807");
    assert_eq!(int_literal(i64::MIN), "-9223372036854775808");
}

#[test]
fn render_values() {
    assert_eq!(render(&Node::Leaf(Value::Int(-5)), false), Ok("-5\n".to_string()));
    assert_eq!(render(&Node::Leaf(Value::Str("é\n".to_string())), false), Ok("\"é\\n\"\n".to_string()));
    assert_eq!(render(&Node::Leaf(Value::Bool(true)), true), Err(RenderError::NotAString));
}

#[test]
fn compare_texts() {
    assert!(check_eq("a\n", "a\n"));
    assert!(!check_eq("a\n", "a"));
}

#[test]
fn parse_unicode_escapes() {
    let p = KeyPath::parse("\"\\u00e9\\U0001F600x\\u00C9\"").unwrap();
    assert_eq!(p.segments, vec![KeySegment::Quoted("é😀xÉ".to_string())]);
    for bad in ["\"\\ud800\"", "\"\\u12\"", "\"\\u12G4\"", "\"\\U00110000\"", "\"\\x41\""] {
        assert!(KeyPath::parse(bad).is_err(), "{}", bad);
    }
}

#[test]
fn get_escaped_quoted_key() {
    assert_eq!(get_value(&input(), "\"quoted key\\u203d\"", false).unwrap(), json_line("quoted"));
}
