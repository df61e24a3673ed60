use sdlang::number::{parse_integer, push_decimal};
use sdlang::parser::{Parser, Tag, Value};
use sdlang::scanner::{Scanner, Token};
use sdlang::text::{same_text, slice};

fn read_back(value: &Value) -> Value {
    let text = value.canonical_text();
    let mut scanner = Scanner::new(&text);
    let mut tokens = Scanner::new(&text);
    assert!(tokens.scan_token().is_some());
    assert_eq!(tokens.scan_token(), None);
    let mut parser = Parser::new(&mut scanner);
    parser.literal().unwrap()
}

#[test]
fn canonical_text_of_each_kind() {
    assert_eq!(Value::String("a b".to_string()).canonical_text(), "\"a b\"");
    assert_eq!(Value::String(String::new()).canonical_text(), "\"\"");
    assert_eq!(Value::Integer(0).canonical_text(), "0");
    assert_eq!(Value::Integer(8080).canonical_text(), "8080");
    assert_eq!(Value::Integer(-12).canonical_text(), "-12");
    assert_eq!(Value::Integer(i64::MAX).canonical_text(), "9223372036854775807");
    assert_eq!(Value::Integer(i64::MIN).canonical_text(), "-9223372036854775808");
    assert_eq!(Value::Float("7.8e+12".to_string()).canonical_text(), "7.8e+12");
    assert_eq!(Value::Boolean(true).canonical_text(), "true");
    assert_eq!(Value::Boolean(false).canonical_text(), "false");
    assert_eq!(Value::Null.canonical_text(), "null");
}

#[test]
fn values_read_back_as_themselves() {
    let values = vec![
        Value::String("Kirill Vasiltsov".to_string()),
        Value::String("two\nlines; # no comment {".to_string()),
        Value::String("\u{e9}\u{20ac}".to_string()),
        Value::String(String::new()),
        Value::Integer(0),
        Value::Integer(7),
        Value::Integer(1234567890),
        Value::Integer(i64::MAX),
        Value::Float("1.2".to_string()),
        Value::Float("5.6e1".to_string()),
        Value::Float("7.8E-12".to_string()),
        Value::Boolean(true),
        Value::Boolean(false),
        Value::Null,
    ];
    for value in values.iter() {
        assert_eq!(&read_back(value), value);
    }
}

#[test]
fn values_of_a_source_read_back_as_themselves() {
    let source = "a 007 \"x y\" 1.50 true z=null;";
    let parsed = sdlang::parser::parse_source(source);
    assert_eq!(parsed.error, None);
    for value in parsed.tags[0].values().iter() {
        assert_eq!(&read_back(value), value);
    }
    assert_eq!(parsed.tags[0].values()[0].canonical_text(), "7");
    assert_eq!(read_back(parsed.tags[0].attribute("z").unwrap()), Value::Null);
}

#[test]
fn canonical_text_is_one_token() {
    let text = Value::Float("2.5e3".to_string()).canonical_text();
    let mut scanner = Scanner::new(&text);
    assert_eq!(scanner.scan_token(), Some(Token::Float64(0, 5, 1)));
    assert_eq!(scanner.scan_token(), None);
    let text = Value::String("a".to_string()).canonical_text();
    let mut scanner = Scanner::new(&text);
    assert_eq!(scanner.scan_token(), Some(Token::String(1, 2, 1)));
    assert_eq!(scanner.scan_token(), None);
}

#[test]
fn integers_from_digits() {
    assert_eq!(parse_integer(b"0"), Some(0));
    assert_eq!(parse_integer(b"42"), Some(42));
    assert_eq!(parse_integer(b"0042"), Some(42));
    assert_eq!(parse_integer(b"9223372036854775807"), Some(i64::MAX));
    assert_eq!(parse_integer(b"9223372036854775808"), None);
    assert_eq!(parse_integer(b"92233720368547758070"), None);
    assert_eq!(parse_integer(b""), None);
    assert_eq!(parse_integer(b"4a"), None);
    assert_eq!(parse_integer(b"-4"), None);
    assert_eq!(parse_integer(b"99999999999999999999x"), None);
}

#[test]
fn decimal_notation() {
    let mut out = String::from("n=");
    push_decimal(&mut out, 0);
    out.push(' ');
    push_decimal(&mut out, 9);
    out.push(' ');
    push_decimal(&mut out, 10);
    out.push(' ');
    push_decimal(&mut out, 1905);
    out.push(' ');
    push_decimal(&mut out, u64::MAX);
    assert_eq!(out, "n=0 9 10 1905 18446744073709551615");
}

#[test]
fn texts_compared() {
    assert!(same_text("", ""));
    assert!(same_text("size", "size"));
    assert!(!same_text("size", "siz"));
    assert!(!same_text("size", "sizf"));
    assert!(!same_text("", "a"));
    assert!(same_text("\u{e9}", "\u{e9}"));
    assert!(!same_text("\u{e9}", "\u{e8}"));
}

#[test]
fn slices_of_a_text() {
    let source = "ab\u{e9}cd";
    assert_eq!(slice(source, 0, 6), source);
    assert_eq!(slice(source, 2, 4), "\u{e9}");
    assert_eq!(slice(source, 4, 6), "cd");
    assert_eq!(slice(source, 3 + 3, 6), "");
    assert_eq!(slice(source, 0, 0), "");
}

#[test]
fn tags_built_by_hand() {
    let mut tag = Tag::new("server".to_string());
    assert_eq!(tag.name(), "server");
    assert!(tag.is_bare());
    tag.set_attribute("size".to_string(), Value::Integer(80));
    assert!(!tag.is_bare());
    tag.set_attribute("host".to_string(), Value::String("a".to_string()));
    tag.set_attribute("size".to_string(), Value::Integer(8080));
    assert_eq!(tag.attributes().len(), 2);
    assert_eq!(tag.attribute("size"), Some(&Value::Integer(8080)));
    assert_eq!(tag.attribute("host"), Some(&Value::String("a".to_string())));
    assert_eq!(tag.attribute("Size"), None);
    tag.add_value(Value::Null);
    tag.add_value(Value::Null);
    assert_eq!(tag.values(), &vec![Value::Null, Value::Null]);
    let mut child = Tag::new("child".to_string());
    child.add_value(Value::Boolean(true));
    tag.add_child(child);
    tag.add_child(Tag::new("other".to_string()));
    assert_eq!(tag.children().len(), 2);
    assert_eq!(tag.children()[0].name(), "child");
    assert_eq!(tag.children()[1].name(), "other");
    let only_value = {
        let mut tag = Tag::new("t".to_string());
        tag.add_value(Value::Integer(1));
        tag
    };
    assert!(!only_value.is_bare());
}
