use sdlang::parser::{parse_source, Parsed, Parser, SyntaxError, Tag, Value};
use sdlang::scanner::Scanner;

fn parse(source: &str) -> Parsed {
    let mut scanner = Scanner::new(source);
    let parser = Parser::new(&mut scanner);
    parser.parse()
}

fn error(message: &'static str, start: usize, end: usize, line: usize) -> Option<SyntaxError> {
    Some(SyntaxError { message, start, end, line })
}

fn text(value: &str) -> Value {
    Value::String(value.to_string())
}

#[test]
fn tag_with_one_string_value() {
    let parsed = parse("author \"Kirill Vasiltsov\";");
    assert_eq!(parsed.error, None);
    assert_eq!(parsed.tags.len(), 1);
    let tag = &parsed.tags[0];
    assert_eq!(tag.name(), "author");
    assert_eq!(tag.values(), &vec![text("Kirill Vasiltsov")]);
    assert!(tag.attributes().is_empty());
    assert!(tag.children().is_empty());
}

#[test]
fn attribute_in_place_of_a_name_is_no_tag() {
    let parsed = parse("private=true");
    assert!(parsed.tags.is_empty());
    assert_eq!(parsed.error, error("Expect literal value or attribute.", 7, 8, 1));
}

#[test]
fn tag_without_terminator() {
    let parsed = parse("tag private=true");
    assert!(parsed.tags.is_empty());
    assert_eq!(parsed.error, error("Expect ';' or '{'.", 12, 16, 1));
    let parsed = parse("tag 1\n");
    assert!(parsed.tags.is_empty());
    assert_eq!(parsed.error, error("Expect ';' or '{'.", 4, 5, 1));
}

#[test]
fn bare_children_are_rejected() {
    let parsed = parse("a { b; c; }");
    assert!(parsed.tags.is_empty());
    assert_eq!(parsed.error, error("Expect literal value or attribute.", 5, 6, 1));
}

#[test]
fn bare_tag_is_rejected() {
    let parsed = parse("a;");
    assert!(parsed.tags.is_empty());
    assert_eq!(parsed.error, error("Expect literal value or attribute.", 1, 2, 1));
}

#[test]
fn children_with_values() {
    let parsed = parse("a { b 1; c 2; }");
    assert_eq!(parsed.error, None);
    assert_eq!(parsed.tags.len(), 1);
    let a = &parsed.tags[0];
    assert_eq!(a.name(), "a");
    assert!(a.values().is_empty());
    assert!(a.attributes().is_empty());
    assert_eq!(a.children().len(), 2);
    let mut b = Tag::new("b".to_string());
    b.add_value(Value::Integer(1));
    let mut c = Tag::new("c".to_string());
    c.add_value(Value::Integer(2));
    assert_eq!(a.children(), &vec![b, c]);
}

#[test]
fn empty_block() {
    let parsed = parse("a {}");
    assert_eq!(parsed.error, None);
    assert_eq!(parsed.tags, vec![Tag::new("a".to_string())]);
    assert!(parsed.tags[0].is_bare());
}

#[test]
fn every_kind_of_literal() {
    let parsed = parse("a 1 2.5 \"s\" true false null 7.8e+12;");
    assert_eq!(parsed.error, None);
    assert_eq!(
        parsed.tags[0].values(),
        &vec![
            Value::Integer(1),
            Value::Float("2.5".to_string()),
            text("s"),
            Value::Boolean(true),
            Value::Boolean(false),
            Value::Null,
            Value::Float("7.8e+12".to_string()),
        ]
    );
}

#[test]
fn values_and_attributes_mixed() {
    let parsed = parse("server \"main\" size=8080 8 host=\"localhost\" debug=null {\n}\n");
    assert_eq!(parsed.error, None);
    let tag = &parsed.tags[0];
    assert_eq!(tag.name(), "server");
    assert_eq!(tag.values(), &vec![text("main"), Value::Integer(8)]);
    assert_eq!(tag.attributes().len(), 3);
    assert_eq!(tag.attribute("size"), Some(&Value::Integer(8080)));
    assert_eq!(tag.attribute("host"), Some(&text("localhost")));
    assert_eq!(tag.attribute("debug"), Some(&Value::Null));
    assert_eq!(tag.attribute("siz"), None);
    assert!(!tag.is_bare());
}

#[test]
fn later_attribute_replaces_earlier() {
    let parsed = parse("a x=1 y=2 x=3;");
    assert_eq!(parsed.error, None);
    let tag = &parsed.tags[0];
    assert_eq!(tag.attributes().len(), 2);
    assert_eq!(tag.attribute("x"), Some(&Value::Integer(3)));
    assert_eq!(tag.attribute("y"), Some(&Value::Integer(2)));
    assert_eq!(
        tag.attributes(),
        &vec![("x".to_string(), Value::Integer(3)), ("y".to_string(), Value::Integer(2))]
    );
}

#[test]
fn nested_blocks() {
    let parsed = parse("a 1 { b { c x=true; } d 2; }\ne 3;");
    assert_eq!(parsed.error, None);
    assert_eq!(parsed.tags.len(), 2);
    let a = &parsed.tags[0];
    assert_eq!(a.values(), &vec![Value::Integer(1)]);
    assert_eq!(a.children().len(), 2);
    let b = &a.children()[0];
    assert_eq!(b.name(), "b");
    assert_eq!(b.children().len(), 1);
    assert_eq!(b.children()[0].name(), "c");
    assert_eq!(b.children()[0].attribute("x"), Some(&Value::Boolean(true)));
    assert_eq!(a.children()[1].name(), "d");
    assert_eq!(parsed.tags[1].name(), "e");
}

#[test]
fn tags_before_the_first_error_are_kept() {
    let parsed = parse("a 1;\nb 2;\nc\n");
    assert_eq!(parsed.tags.len(), 2);
    assert_eq!(parsed.tags[0].name(), "a");
    assert_eq!(parsed.tags[1].name(), "b");
    assert_eq!(parsed.error, error("Expect ';' or '{'.", 10, 11, 3));
}

#[test]
fn nothing_after_the_first_error_is_read() {
    let parsed = parse("a 1; b; c 3;");
    assert_eq!(parsed.tags.len(), 1);
    assert_eq!(parsed.error, error("Expect literal value or attribute.", 6, 7, 1));
}

#[test]
fn tag_inside_a_failing_block_is_not_kept() {
    let parsed = parse("a { b 1; c }");
    assert!(parsed.tags.is_empty());
    assert_eq!(parsed.error, error("Expect literal value or attribute.", 11, 12, 1));
}

#[test]
fn block_left_open() {
    let parsed = parse("a { b 1;");
    assert!(parsed.tags.is_empty());
    assert_eq!(parsed.error, error("Expect '}' after tag body.", 7, 8, 1));
    let parsed = parse("a {");
    assert_eq!(parsed.error, error("Expect '}' after tag body.", 2, 3, 1));
}

#[test]
fn name_without_equal_sign() {
    let parsed = parse("a b 1;");
    assert_eq!(parsed.error, error("Expect literal value or attribute.", 2, 3, 1));
    let parsed = parse("a b;");
    assert_eq!(parsed.error, error("Expect literal value or attribute.", 2, 3, 1));
    let parsed = parse("a b");
    assert_eq!(parsed.error, error("Expect literal value or attribute.", 2, 3, 1));
    let parsed = parse("a 1 b c=2;");
    assert_eq!(parsed.error, error("Expect literal value or attribute.", 4, 5, 1));
    let parsed = parse("a b %=1;");
    assert_eq!(parsed.error, error("Expect literal value or attribute.", 2, 3, 1));
}

#[test]
fn identifier_alone_is_neither_attribute_nor_value() {
    let mut scanner = Scanner::new("b;");
    let mut parser = Parser::new(&mut scanner);
    assert_eq!(
        parser.attribute_or_literal(),
        Err(SyntaxError {
            message: "Expect literal value or attribute.",
            start: 0,
            end: 1,
            line: 1,
        })
    );
    let mut scanner = Scanner::new("b");
    let mut parser = Parser::new(&mut scanner);
    assert_eq!(
        parser.attribute_or_literal(),
        Err(SyntaxError {
            message: "Expect literal value or attribute.",
            start: 0,
            end: 1,
            line: 1,
        })
    );
}

#[test]
fn attribute_keeps_its_own_messages() {
    let mut scanner = Scanner::new("b;");
    let mut parser = Parser::new(&mut scanner);
    assert_eq!(
        parser.attribute(),
        Err(SyntaxError { message: "Expect '=' after attribute name.", start: 1, end: 2, line: 1 })
    );
    let mut scanner = Scanner::new("b");
    let mut parser = Parser::new(&mut scanner);
    assert_eq!(
        parser.attribute(),
        Err(SyntaxError { message: "Unexpected identifier.", start: 0, end: 1, line: 1 })
    );
    let mut scanner = Scanner::new("b = ;");
    let mut parser = Parser::new(&mut scanner);
    assert_eq!(
        parser.attribute(),
        Err(SyntaxError { message: "Expect literal after '='.", start: 2, end: 3, line: 1 })
    );
    let mut scanner = Scanner::new("b=3");
    let mut parser = Parser::new(&mut scanner);
    assert_eq!(parser.attribute(), Ok(("b".to_string(), Value::Integer(3))));
}

#[test]
fn equal_sign_without_literal() {
    let parsed = parse("a b=;");
    assert_eq!(parsed.error, error("Expect literal after '='.", 3, 4, 1));
    let parsed = parse("a b=c;");
    assert_eq!(parsed.error, error("Expect literal after '='.", 3, 4, 1));
    let parsed = parse("a b=");
    assert_eq!(parsed.error, error("Expect literal after '='.", 3, 4, 1));
}

#[test]
fn no_name_where_a_tag_starts() {
    let parsed = parse("1;");
    assert_eq!(parsed.error, error("Invalid identifier.", 0, 1, 1));
    let parsed = parse("a 1; }");
    assert_eq!(parsed.tags.len(), 1);
    assert_eq!(parsed.error, error("Invalid identifier.", 5, 6, 1));
    let parsed = parse("true 1;");
    assert_eq!(parsed.error, error("Invalid identifier.", 0, 4, 1));
}

#[test]
fn scanner_errors_are_passed_on() {
    let parsed = parse("a 1.;");
    assert_eq!(parsed.error, error("'.' must be followed by digit.", 2, 4, 1));
    let parsed = parse("a 1.5e;");
    assert_eq!(parsed.error, error("Illegal float.", 2, 6, 1));
    let parsed = parse("a \"b;");
    assert_eq!(parsed.error, error("Unterminated string.", 2, 5, 1));
    let parsed = parse("a %;");
    assert_eq!(parsed.error, error("Unexpected character.", 2, 3, 1));
    let parsed = parse("%a 1;");
    assert_eq!(parsed.error, error("Unexpected character.", 0, 1, 1));
    let parsed = parse("a b=%;");
    assert_eq!(parsed.error, error("Unexpected character.", 4, 5, 1));
    let parsed = parse("a { ? }");
    assert_eq!(parsed.error, error("Unexpected character.", 4, 5, 1));
}

#[test]
fn integers_up_to_64_bits() {
    let parsed = parse("a 9223372036854775807 007 0;");
    assert_eq!(parsed.error, None);
    assert_eq!(
        parsed.tags[0].values(),
        &vec![Value::Integer(i64::MAX), Value::Integer(7), Value::Integer(0)]
    );
    let parsed = parse("a 9223372036854775808;");
    assert!(parsed.tags.is_empty());
    assert_eq!(parsed.error, error("Integer out of range.", 2, 21, 1));
    let parsed = parse("a b=99999999999999999999999;");
    assert_eq!(parsed.error, error("Integer out of range.", 4, 27, 1));
}

#[test]
fn error_on_a_later_line() {
    let parsed = parse("a 1;\n\n# note\nb {\n  c 1\n}\n");
    assert_eq!(parsed.tags.len(), 1);
    assert_eq!(parsed.error, error("Expect literal value or attribute.", 23, 24, 6));
}

#[test]
fn empty_document() {
    let parsed = parse("");
    assert!(parsed.tags.is_empty());
    assert_eq!(parsed.error, None);
    let parsed = parse("  \n# nothing\n");
    assert!(parsed.tags.is_empty());
    assert_eq!(parsed.error, None);
}

#[test]
fn rules_one_by_one() {
    let mut scanner = Scanner::new("name x=1 2 ;");
    let mut parser = Parser::new(&mut scanner);
    assert_eq!(parser.identifier(), Ok("name".to_string()));
    assert_eq!(parser.attribute(), Ok(("x".to_string(), Value::Integer(1))));
    assert_eq!(parser.attribute_or_literal(), Ok((None, Value::Integer(2))));
    assert_eq!(
        parser.identifier(),
        Err(SyntaxError { message: "Invalid identifier.", start: 11, end: 12, line: 1 })
    );
    assert_eq!(
        parser.literal(),
        Err(SyntaxError { message: "Expect literal.", start: 11, end: 12, line: 1 })
    );
    assert_eq!(
        parser.attribute_or_literal(),
        Err(SyntaxError {
            message: "Expect literal value or attribute.",
            start: 11,
            end: 12,
            line: 1,
        })
    );
}

#[test]
fn rules_at_the_end_of_the_tokens() {
    let mut scanner = Scanner::new("a");
    let mut parser = Parser::new(&mut scanner);
    assert_eq!(parser.identifier(), Ok("a".to_string()));
    let at_a = SyntaxError { message: "Expect identifier.", start: 0, end: 1, line: 1 };
    assert_eq!(parser.identifier(), Err(at_a));
    assert_eq!(parser.attribute(), Err(at_a));
    assert_eq!(parser.tag_declaration(), Err(at_a));
    assert_eq!(
        parser.literal(),
        Err(SyntaxError { message: "Expect literal.", start: 0, end: 1, line: 1 })
    );
}

#[test]
fn rules_without_any_token() {
    let mut scanner = Scanner::new("\n\n ");
    let mut parser = Parser::new(&mut scanner);
    assert_eq!(
        parser.tag_declaration(),
        Err(SyntaxError { message: "Expect identifier.", start: 3, end: 3, line: 3 })
    );
    assert_eq!(
        parser.attribute_or_literal(),
        Err(SyntaxError {
            message: "Expect literal value or attribute.",
            start: 3,
            end: 3,
            line: 3,
        })
    );
}

#[test]
fn attribute_or_literal_reads_an_attribute() {
    let mut scanner = Scanner::new("k=\"v\" 2.0");
    let mut parser = Parser::new(&mut scanner);
    assert_eq!(
        parser.attribute_or_literal(),
        Ok((Some("k".to_string()), text("v")))
    );
    assert_eq!(parser.literal(), Ok(Value::Float("2.0".to_string())));
}

#[test]
fn parser_takes_over_a_scanner_that_has_moved() {
    let mut scanner = Scanner::new("skipped a 1;");
    scanner.scan_token();
    let parsed = Parser::new(&mut scanner).parse();
    assert_eq!(parsed.error, None);
    assert_eq!(parsed.tags.len(), 1);
    assert_eq!(parsed.tags[0].name(), "a");
}

fn statement(tag: &Tag) -> String {
    let mut text = tag.name().to_string();
    for value in tag.values().iter() {
        text.push(' ');
        text.push_str(&value.canonical_text());
    }
    for (name, value) in tag.attributes().iter() {
        text.push(' ');
        text.push_str(name);
        text.push('=');
        text.push_str(&value.canonical_text());
    }
    text.push(';');
    text
}

#[test]
fn tags_read_back_from_their_statements() {
    let source = [
        "a\t007 \"x;y\"k=1.50  # note\n",
        " true k=null size=8080 z:z=\"\u{e9}\";\n",
        "b q=false;\nc 1;",
    ]
    .concat();
    let source = source.as_str();
    let parsed = parse_source(source);
    assert_eq!(parsed.error, None);
    assert_eq!(parsed.tags.len(), 3);
    assert_eq!(
        statement(&parsed.tags[0]),
        "a 7 \"x;y\" true k=null size=8080 z:z=\"\u{e9}\";"
    );
    assert_eq!(statement(&parsed.tags[1]), "b q=false;");
    assert_eq!(statement(&parsed.tags[2]), "c 1;");
    for tag in parsed.tags.iter() {
        let again = parse_source(&statement(tag));
        assert_eq!(again.error, None);
        assert_eq!(again.tags.len(), 1);
        assert_eq!(&again.tags[0], tag);
    }
}

#[test]
fn tag_with_children_reads_back_without_them() {
    let parsed = parse_source("a 1 { b 2; }");
    assert_eq!(parsed.error, None);
    let again = parse_source(&statement(&parsed.tags[0]));
    assert_eq!(again.error, None);
    assert_eq!(again.tags[0].name(), "a");
    assert_eq!(again.tags[0].values(), parsed.tags[0].values());
    assert!(again.tags[0].children().is_empty());
}

#[test]
fn reading_twice_gives_equal_trees() {
    let source = "a 1 x=\"y\" { b 2.5; c null { d true; } }\ne \"f\";\ng";
    let first = parse_source(source);
    let second = parse_source(source);
    assert_eq!(first.tags.len(), 2);
    assert_eq!(first.tags, second.tags);
    assert_eq!(first.error, second.error);
    assert_eq!(first.error, error("Expect ';' or '{'.", 47, 48, 3));
}

#[test]
fn parse_source_reads_a_document() {
    let parsed = parse_source("a 1 x=\"y\"; b { c 2.5e3; }");
    assert_eq!(parsed.error, None);
    assert_eq!(parsed.tags.len(), 2);
    assert_eq!(parsed.tags[0].attribute("x"), Some(&text("y")));
    assert_eq!(parsed.tags[0].attribute("z"), None);
    assert_eq!(
        parsed.tags[1].children()[0].values(),
        &vec![Value::Float("2.5e3".to_string())]
    );
}

#[test]
fn names_and_strings_of_several_bytes() {
    let parsed = parse_source("a \"\u{e9}t\u{e9}\" b=\"\u{20ac}\";");
    assert_eq!(parsed.error, None);
    assert_eq!(parsed.tags[0].values(), &vec![text("\u{e9}t\u{e9}")]);
    assert_eq!(parsed.tags[0].attribute("b"), Some(&text("\u{20ac}")));
}

#[test]
fn written_document_reads_back() {
    let source = "a 1 {\nb 2 k=\"v\";\nc {\n}\nd x=null {\ne 2.5;\n}\n}\nf true;\n";
    let parsed = parse_source(source);
    assert_eq!(parsed.error, None);
    assert_eq!(parsed.tags.len(), 2);
    let a = &parsed.tags[0];
    assert_eq!(a.name(), "a");
    assert_eq!(a.values(), &vec![Value::Integer(1)]);
    assert_eq!(a.children().len(), 3);
    assert_eq!(a.children()[0].attribute("k"), Some(&text("v")));
    assert!(a.children()[1].is_bare());
    assert!(a.children()[1].children().is_empty());
    assert_eq!(a.children()[2].attribute("x"), Some(&Value::Null));
    assert_eq!(
        a.children()[2].children()[0].values(),
        &vec![Value::Float("2.5".to_string())]
    );
    assert_eq!(parsed.tags[1].name(), "f");
    assert_eq!(parsed.tags[1].values(), &vec![Value::Boolean(true)]);
}
