use toml_to_yaml::{
    parse_array, parse_boolean, parse_document, parse_float, parse_identifier,
    parse_inline_table, parse_integer, parse_pair, parse_string, Array, Document, FloatLiteral,
    Identifier, InlineTable, Pair, Table, Value,
};

pub const TOML: &str = r#"
title = "TOML Example"

[owner]
name = "Tom Preston-Werner"

[database]
enabled = true
ports = [ 8000, 8001, 8002 ]
data = [ ["delta", "phi"], [3.14] ]
temp_targets = { cpu = 79.5, case = 72.0 }

[servers-alpha]
ip = "10.0.0.1"
role = "frontend"

[servers-beta]
ip = "10.0.0.2"
role = "backend""#;

fn ident(s: &str) -> Identifier {
    Identifier(s.to_string())
}

fn float(s: &str) -> Value {
    Value::Float(FloatLiteral(s.to_string()))
}

fn string(s: &str) -> Value {
    Value::String(s.to_string())
}

fn pair(k: &str, value: Value) -> Pair {
    Pair { key: ident(k), value }
}

fn table(h: &str, pairs: Vec<Pair>) -> Table {
    Table { header: ident(h), body: InlineTable(pairs) }
}

#[test]
fn test_parse_boolean_1() {
    let r = parse_boolean("false").unwrap();
    assert_eq!(r, ("".to_string(), false));
}

#[test]
fn test_parse_boolean_2() {
    let r = parse_boolean("true").unwrap();
    assert_eq!(r, ("".to_string(), true));
}

#[test]
fn test_parse_boolean_3() {
    let _ = parse_boolean("other").unwrap_err();
}

#[test]
fn test_parse_integer_1() {
    let r = parse_integer("1").unwrap();
    assert_eq!(r, ("".to_string(), 1));
}

#[test]
fn test_parse_integer_2() {
    let r = parse_integer("1other").unwrap();
    assert_eq!(r, ("other".to_string(), 1));
}

#[test]
fn test_parse_float_1() {
    let r = parse_float("1.0").unwrap();
    assert_eq!(r, ("".to_string(), FloatLiteral("1.0".to_string())));
}

#[test]
fn test_parse_float_2() {
    let r = parse_float("0.1").unwrap();
    assert_eq!(r, ("".to_string(), FloatLiteral("0.1".to_string())));
}

#[test]
fn test_parse_float_3() {
    let r = parse_float("0.1other").unwrap();
    assert_eq!(r, ("other".to_string(), FloatLiteral("0.1".to_string())));
}

#[test]
fn test_parse_string_1() {
    let r = parse_string("\"abc\"").unwrap();
    assert_eq!(r, ("".to_string(), "abc".to_string()));
}

#[test]
fn test_parse_string_2() {
    let r = parse_string("\"abc\"other").unwrap();
    assert_eq!(r, ("other".to_string(), "abc".to_string()));
}

#[test]
fn test_parse_array_1() {
    let r = parse_array("[1,2]").unwrap();
    assert_eq!(r, ("".to_string(), Array(vec![Value::Integer(1), Value::Integer(2)])));
}

#[test]
fn test_parse_array_2() {
    let r = parse_array("[  \"abc\", 1, 2.0, true ]").unwrap();
    let expected = Array(vec![string("abc"), Value::Integer(1), float("2.0"), Value::Boolean(true)]);
    assert_eq!(r, ("".to_string(), expected));
}

#[test]
fn test_parse_identifier_1() {
    let r = parse_identifier("abc").unwrap();
    assert_eq!(r, ("".to_string(), ident("abc")));
}

#[test]
fn test_parse_identifier_2() {
    let r = parse_identifier("-ab_c").unwrap();
    assert_eq!(r, ("".to_string(), ident("-ab_c")));
}

#[test]
fn test_parse_pair_1() {
    let r = parse_pair("abc=\"def\"").unwrap();
    assert_eq!(r, ("".to_string(), pair("abc", string("def"))));
}

#[test]
fn test_parse_pair_2() {
    let r = parse_pair("abc = \"def\"").unwrap();
    assert_eq!(r, ("".to_string(), pair("abc", string("def"))));
}

#[test]
fn test_parse_inline_table_1() {
    let r = parse_inline_table("{ abc = \"def\" }").unwrap();
    assert_eq!(r, ("".to_string(), InlineTable(vec![pair("abc", string("def"))])));
}

#[test]
fn test_parse_document() {
    let r = parse_document(TOML).unwrap();
    let expected = Document(vec![
        table("", vec![pair("title", string("TOML Example"))]),
        table("owner", vec![pair("name", string("Tom Preston-Werner"))]),
        table(
            "database",
            vec![
                pair("enabled", Value::Boolean(true)),
                pair(
                    "ports",
                    Value::Array(Array(vec![
                        Value::Integer(8000),
                        Value::Integer(8001),
                        Value::Integer(8002),
                    ])),
                ),
                pair(
                    "data",
                    Value::Array(Array(vec![
                        Value::Array(Array(vec![string("delta"), string("phi")])),
                        Value::Array(Array(vec![float("3.14")])),
                    ])),
                ),
                pair(
                    "temp_targets",
                    Value::InlineTable(InlineTable(vec![
                        pair("cpu", float("79.5")),
                        pair("case", float("72.0")),
                    ])),
                ),
            ],
        ),
        table(
            "servers-alpha",
            vec![pair("ip", string("10.0.0.1")), pair("role", string("frontend"))],
        ),
        table(
            "servers-beta",
            vec![pair("ip", string("10.0.0.2")), pair("role", string("backend"))],
        ),
    ]);
    assert_eq!(r, ("".to_string(), expected));
}
