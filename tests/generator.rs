use toml_to_yaml::{
    parse, parse_array, parse_identifier, parse_inline_table, parse_value, render, Array,
    Document, FloatLiteral, Identifier, InlineTable, Mode, Pair, ParseError, Table, Value,
};

const TOML: &str = r#"
title = "TOML Example"

[owner]
name = "Tom Preston-Werner"

[database]
enabled = true
ports = [ 8000, 8001, 8002 ]
data = [ ["delta", "phi"], [3.14] ]
temp_targets = { cpu = 79.5, case = 72.0 }

[servers-alpha]
ip = "10.0.0.1"
role = "frontend"

[servers-beta]
ip = "10.0.0.2"
role = "backend""#;

const SMALL: &str = "title = \"TOML Example\"\n\n[owner]\nname = \"Tom Preston-Werner\"";

fn ident(s: &str) -> Identifier {
    Identifier(s.to_string())
}

fn pair(k: &str, value: Value) -> Pair {
    Pair { key: ident(k), value }
}

fn table(h: &str, pairs: Vec<Pair>) -> Table {
    Table { header: ident(h), body: InlineTable(pairs) }
}

#[test]
fn test_display_yaml() {
    let doc = parse(TOML).unwrap();
    let r = doc.to_string();
    let expected = "title: TOML Example

owner:
  name: Tom Preston-Werner

database:
  enabled: true
  ports:
    - 8000
    - 8001
    - 8002
  data:
    - - delta
      - phi
    - - 3.14
  temp_targets:
    cpu: 79.5
    case: 72.0

servers-alpha:
  ip: 10.0.0.1
  role: frontend

servers-beta:
  ip: 10.0.0.2
  role: backend";
    assert_eq!(r, expected);
}

#[test]
fn rendering_twice_gives_the_same_text() {
    let a = parse(TOML).unwrap();
    let b = parse(TOML).unwrap();
    assert_eq!(render(&a, Mode::Expanded), render(&a, Mode::Expanded));
    assert_eq!(render(&a, Mode::Compact), render(&b, Mode::Compact));
}

#[test]
fn integer_and_float_are_told_apart() {
    assert_eq!(parse_value("72").unwrap(), ("".to_string(), Value::Integer(72)));
    assert_eq!(
        parse_value("72.0").unwrap(),
        ("".to_string(), Value::Float(FloatLiteral("72.0".to_string())))
    );
    assert_eq!(parse_value("72.").unwrap(), (".".to_string(), Value::Integer(72)));
    assert_eq!(parse("x = 72."), Err(ParseError { rest: ".".to_string() }));
    assert_eq!(parse("x = 72.x"), Err(ParseError { rest: ".x".to_string() }));
}

#[test]
fn integer_too_large_for_i64_is_a_float() {
    assert_eq!(
        parse_value("9223372036854775807").unwrap(),
        ("".to_string(), Value::Integer(9223372036854775807))
    );
    let (_, v) = parse_value("9223372036854775808").unwrap();
    assert_eq!(v, Value::Float(FloatLiteral("9223372036854775808".to_string())));
    assert_eq!(v.render(Mode::Expanded), "9223372036854775808.0");
}

#[test]
fn float_forms() {
    for (text, rest) in [("-1.5e3x", "x"), (".5", ""), ("+2.", ""), ("1.5e", "e"), ("3.0E-2", "")] {
        let (r, v) = parse_value(text).unwrap();
        assert_eq!(r, rest);
        assert!(matches!(v, Value::Float(_)));
    }
    assert_eq!(parse_value("3E-2").unwrap(), ("E-2".to_string(), Value::Integer(3)));
    let (_, v) = parse_value("-5").unwrap();
    assert_eq!(v, Value::Float(FloatLiteral("-5".to_string())));
    assert_eq!(v.render(Mode::Compact), "-5.0");
    assert_eq!(Value::Float(FloatLiteral("1e3".to_string())).render(Mode::Compact), "1e3");
}

#[test]
fn array_round_trip_compact() {
    let (rest, a) = parse_array("[1,2]").unwrap();
    assert_eq!(rest, "");
    assert_eq!(a, Array(vec![Value::Integer(1), Value::Integer(2)]));
    assert_eq!(Value::Array(a).render(Mode::Compact), "[1, 2]");
}

#[test]
fn array_expanded_and_nested() {
    let (_, v) = parse_value("[[1, 2], true]").unwrap();
    assert_eq!(v.render(Mode::Expanded), "- - 1\n    - 2\n  - true");
    assert_eq!(v.render(Mode::Compact), "[[1, 2], true]");
}

#[test]
fn trailing_comma_is_refused() {
    assert!(parse_array("[1, ]").is_err());
    assert!(parse_inline_table("{ a = 1, }").is_err());
}

#[test]
fn inline_table_parse() {
    let (rest, t) = parse_inline_table("{ abc = \"def\" }").unwrap();
    assert_eq!(rest, "");
    assert_eq!(t, InlineTable(vec![pair("abc", Value::String("def".to_string()))]));
    let (_, e) = parse_inline_table("{}").unwrap();
    assert_eq!(e, InlineTable(vec![]));
}

#[test]
fn small_document_structure() {
    let doc = parse(SMALL).unwrap();
    let expected = Document(vec![
        table("", vec![pair("title", Value::String("TOML Example".to_string()))]),
        table("owner", vec![pair("name", Value::String("Tom Preston-Werner".to_string()))]),
    ]);
    assert_eq!(doc, expected);
}

#[test]
fn small_document_expanded() {
    let doc = parse(SMALL).unwrap();
    assert_eq!(doc.to_string(), "title: TOML Example\n\nowner:\n  name: Tom Preston-Werner");
    assert_eq!(render(&doc, Mode::Compact), "title: TOML Example\nowner:\n  name: Tom Preston-Werner");
}

#[test]
fn identifier_grammar() {
    assert_eq!(parse_identifier("servers-alpha").unwrap(), ("".to_string(), ident("servers-alpha")));
    assert_eq!(parse_identifier("-ab_c").unwrap(), ("".to_string(), ident("-ab_c")));
    assert_eq!(parse_identifier("a.b").unwrap(), (".b".to_string(), ident("a")));
    assert_eq!(parse_identifier("a b").unwrap(), (" b".to_string(), ident("a")));
    assert_eq!(parse_identifier(".a"), Err(ParseError { rest: ".a".to_string() }));
    assert!(parse("a.b = 1").is_err());
    assert!(parse("[a b]\nx = 1").is_err());
}

#[test]
fn empty_array() {
    let (_, a) = parse_array("[]").unwrap();
    assert_eq!(a, Array(vec![]));
    assert_eq!(Value::Array(Array(vec![])).render(Mode::Compact), "[]");
    assert_eq!(Value::Array(Array(vec![])).render(Mode::Expanded), "");
    let doc = parse("k = []").unwrap();
    assert_eq!(doc.to_string(), "k:\n  ");
    assert_eq!(render(&doc, Mode::Compact), "k: []");
}

#[test]
fn empty_input_and_headers_only() {
    assert_eq!(parse("").unwrap(), Document(vec![]));
    assert_eq!(parse("  \n ").unwrap(), Document(vec![]));
    let doc = parse("[a]\nx = 1\n[b]\n").unwrap();
    assert_eq!(doc, Document(vec![table("a", vec![pair("x", Value::Integer(1))]), table("b", vec![])]));
    assert_eq!(doc.to_string(), "a:\n  x: 1\n\nb:\n");
}

#[test]
fn duplicate_keys_are_kept() {
    let doc = parse("a = 1\na = 2").unwrap();
    assert_eq!(
        doc,
        Document(vec![table("", vec![pair("a", Value::Integer(1)), pair("a", Value::Integer(2))])])
    );
}

#[test]
fn parse_error_holds_the_unread_rest() {
    assert_eq!(parse("a = 1\n# note"), Err(ParseError { rest: "# note".to_string() }));
    assert_eq!(parse("a = \"open"), Err(ParseError { rest: "a = \"open".to_string() }));
    assert_eq!(parse("[a]"), Err(ParseError { rest: "[a]".to_string() }));
}

#[test]
fn negative_integer_and_booleans_render() {
    assert_eq!(Value::Integer(-42).render(Mode::Expanded), "-42");
    assert_eq!(Value::Integer(i64::MIN).render(Mode::Expanded), "-9223372036854775808");
    assert_eq!(Value::Boolean(false).render(Mode::Compact), "false");
}

#[test]
fn nested_inline_table_renders_indented() {
    let doc = parse("[t]\nk = { a = 1, b = { c = [1] } }").unwrap();
    assert_eq!(doc.to_string(), "t:\n  k:\n    a: 1\n    b:\n      c:\n        - 1");
    assert_eq!(doc.0[0].render(Mode::Compact), "t:\n  k:\n    a: 1\n    b:\n      c: [1]");
}

#[test]
fn strings_keep_non_ascii_text() {
    let (rest, v) = parse_value("\"héllo → wörld\" tail").unwrap();
    assert_eq!(rest, " tail");
    assert_eq!(v.render(Mode::Compact), "héllo → wörld");
}
