use sdlang::scanner::{Scanner, Token};

fn tokenize(source: &str) -> Vec<Token> {
    let mut scanner = Scanner::new(source);
    let mut tokens: Vec<Token> = Vec::new();

    while let Some(token) = scanner.scan_token() {
        tokens.push(token);
    }

    tokens
}

#[test]
fn scan_integers() {
    assert_eq!(vec![Token::Integer(0, 1, 1)], tokenize("1"));
}

#[test]
fn scan_64_floats() {
    assert_eq!(
        vec![
            Token::Float64(0, 3, 1),
            Token::Float64(4, 7, 1),
            Token::Float64(8, 13, 1),
            Token::Float64(14, 21, 1),
        ],
        tokenize("1.2 3.4 5.6e1 7.8e+12")
    );
}

#[test]
fn scan_64_float_error() {
    assert_eq!(
        vec![Token::Error("'.' must be followed by digit.", 0, 2, 1)],
        tokenize("1.")
    );
}

#[test]
fn scan_64_float_error_2() {
    assert_eq!(
        vec![
            Token::Error("'.' must be followed by digit.", 0, 2, 1),
            Token::Identifier(2, 3, 1),
        ],
        tokenize("5.a")
    );
}

#[test]
fn scan_string() {
    assert_eq!(vec![Token::String(1, 6, 1)], tokenize(r#""hello""#));
}

#[test]
fn scan_identifier() {
    assert_eq!(vec![Token::Identifier(0, 6, 1)], tokenize("author"));
}

#[test]
fn skips_comments() {
    let source = r#"author //comment comment;
age;
"#;
    assert_eq!(
        vec![
            Token::Identifier(0, 6, 1),
            Token::Identifier(26, 29, 2),
            Token::Semicolon(29, 30, 2),
        ],
        tokenize(source)
    );
}

#[test]
fn skips_comments_newline() {
    let source = r#"a//
age;
"#;
    assert_eq!(
        vec![
            Token::Identifier(0, 1, 1),
            Token::Identifier(4, 7, 2),
            Token::Semicolon(7, 8, 2),
        ],
        tokenize(source)
    );
}

#[test]
fn skips_shell_comments() {
    let source = r#"author #comment comment;
age;
"#;
    assert_eq!(
        vec![
            Token::Identifier(0, 6, 1),
            Token::Identifier(25, 28, 2),
            Token::Semicolon(28, 29, 2),
        ],
        tokenize(source)
    );
}

#[test]
fn skips_lua_comments() {
    let source = r#"author --comment comment;
age;
"#;
    assert_eq!(
        vec![
            Token::Identifier(0, 6, 1),
            Token::Identifier(26, 29, 2),
            Token::Semicolon(29, 30, 2),
        ],
        tokenize(source)
    );
}

#[test]
fn scan_attribute() {
    assert_eq!(
        vec![
            Token::Identifier(0, 7, 1),
            Token::Equal(7, 8, 1),
            Token::True(8, 12, 1)
        ],
        tokenize("private=true")
    );
}

#[test]
fn scan_string_attribute() {
    assert_eq!(
        vec![
            Token::Identifier(0, 8, 1),
            Token::Equal(8, 9, 1),
            Token::String(10, 16, 1)
        ],
        tokenize(r#"platform="darwin""#)
    );
}

#[test]
fn scan_keywords() {
    assert_eq!(
        vec![
            Token::True(0, 4, 1),
            Token::False(5, 10, 1),
            Token::Null(11, 15, 1)
        ],
        tokenize("true false null")
    );
}

#[test]
fn forward_slash_error() {
    assert_eq!(
        vec![
            Token::Error("Unexpected character.", 0, 1, 1),
            Token::Identifier(1, 2, 1),
        ],
        tokenize("/a")
    );
}

#[test]
fn same_line_semicolon() {
    assert_eq!(
        vec![
            Token::Identifier(0, 1, 1),
            Token::Semicolon(2, 3, 1),
            Token::Identifier(4, 5, 1),
        ],
        tokenize("a ; b")
    );
}

#[test]
fn semicolon() {
    assert_eq!(
        vec![
            Token::Identifier(0, 6, 1),
            Token::String(8, 24, 1),
            Token::Semicolon(25, 26, 1),
        ],
        tokenize(r#"author "Kirill Vasiltsov";"#)
    );
}

#[test]
fn empty() {
    assert_eq!(vec![] as Vec<Token>, tokenize(""));
}

#[test]
fn unterminated_string_is_one_error_token() {
    assert_eq!(
        vec![Token::Error("Unterminated string.", 0, 4, 1)],
        tokenize("\"abc")
    );
    assert_eq!(
        vec![
            Token::Identifier(0, 1, 1),
            Token::Error("Unterminated string.", 2, 8, 1),
        ],
        tokenize("a \"b;\nc;")
    );
}

#[test]
fn scanning_goes_on_after_an_error() {
    assert_eq!(
        vec![
            Token::Error("Unexpected character.", 0, 1, 1),
            Token::Integer(1, 2, 1),
            Token::Error("Unexpected character.", 2, 3, 1),
            Token::Semicolon(3, 4, 1),
        ],
        tokenize("%1%;")
    );
}

#[test]
fn identifier_bytes() {
    assert_eq!(vec![Token::Identifier(0, 9, 1)], tokenize("a_b:c$d-e"));
    assert_eq!(vec![Token::Identifier(0, 4, 1)], tokenize("a--b"));
    assert_eq!(vec![Token::Identifier(0, 2, 1)], tokenize("a1"));
}

#[test]
fn underscore_starts_no_identifier() {
    assert_eq!(
        vec![
            Token::Error("Unexpected character.", 0, 1, 1),
            Token::Identifier(1, 2, 1),
        ],
        tokenize("_a")
    );
}

#[test]
fn keywords_are_whole_words() {
    assert_eq!(vec![Token::Identifier(0, 5, 1)], tokenize("truex"));
    assert_eq!(vec![Token::Identifier(0, 3, 1)], tokenize("nul"));
    assert_eq!(vec![Token::Identifier(0, 1, 1)], tokenize("t"));
    assert_eq!(vec![Token::Identifier(0, 1, 1)], tokenize("f"));
    assert_eq!(vec![Token::Identifier(0, 1, 1)], tokenize("n"));
    assert_eq!(vec![Token::Identifier(0, 4, 1)], tokenize("True"));
    assert_eq!(vec![Token::Identifier(0, 6, 1)], tokenize("falsey"));
}

#[test]
fn exponent_needs_a_digit() {
    assert_eq!(vec![Token::Error("Illegal float.", 0, 4, 1)], tokenize("1.5e"));
    assert_eq!(vec![Token::Error("Illegal float.", 0, 5, 1)], tokenize("1.5e+"));
    assert_eq!(
        vec![
            Token::Error("Illegal float.", 0, 5, 1),
            Token::Identifier(5, 6, 1),
        ],
        tokenize("1.5e-x")
    );
    assert_eq!(
        vec![
            Token::Error("Illegal float.", 0, 4, 1),
            Token::Identifier(4, 5, 1),
        ],
        tokenize("1.5em")
    );
    assert_eq!(vec![Token::Float64(0, 6, 1)], tokenize("1.5E-3"));
    assert_eq!(vec![Token::Float64(0, 7, 1)], tokenize("10.25e7"));
}

#[test]
fn integer_then_word() {
    assert_eq!(
        vec![Token::Integer(0, 2, 1), Token::Identifier(2, 3, 1)],
        tokenize("12e")
    );
    assert_eq!(
        vec![
            Token::Error("'.' must be followed by digit.", 0, 2, 1),
            Token::Identifier(2, 4, 1),
        ],
        tokenize("1.e5")
    );
}

#[test]
fn single_dash_is_no_comment() {
    assert_eq!(
        vec![
            Token::Error("Unexpected character.", 0, 1, 1),
            Token::Identifier(2, 3, 1),
        ],
        tokenize("- a")
    );
    assert_eq!(
        vec![Token::Error("Unexpected character.", 0, 1, 1)],
        tokenize("-")
    );
    assert_eq!(
        vec![Token::Error("Unexpected character.", 0, 1, 1)],
        tokenize("/")
    );
}

#[test]
fn comment_runs_to_the_end_of_the_source() {
    assert_eq!(vec![Token::Identifier(0, 1, 1)], tokenize("a #c"));
    assert_eq!(vec![Token::Identifier(0, 1, 1)], tokenize("a --"));
    assert_eq!(vec![Token::Identifier(0, 1, 1)], tokenize("a // c {"));
    assert_eq!(vec![] as Vec<Token>, tokenize(" \t\r\n# only\n"));
}

#[test]
fn comment_takes_up_the_rest_of_the_line() {
    assert_eq!(vec![Token::Identifier(6, 7, 2)], tokenize("# a;b\nc"));
    assert_eq!(
        vec![Token::Identifier(0, 1, 1), Token::Semicolon(13, 14, 2)],
        tokenize("a // b; { \"c\n;")
    );
    assert_eq!(
        vec![Token::Integer(0, 1, 1), Token::Integer(10, 11, 2)],
        tokenize("1 -- # //\n2 # 3")
    );
}

#[test]
fn lines_are_counted_inside_strings() {
    assert_eq!(
        vec![Token::String(1, 4, 1), Token::Identifier(6, 7, 2)],
        tokenize("\"a\nb\" x")
    );
    assert_eq!(
        vec![Token::Identifier(4, 5, 4), Token::Identifier(6, 7, 5)],
        tokenize("\n\r\n\na\nb")
    );
}

#[test]
fn characters_of_several_bytes() {
    assert_eq!(
        vec![Token::Error("Unexpected character.", 0, 2, 1)],
        tokenize("\u{e9}")
    );
    assert_eq!(
        vec![
            Token::Error("Unexpected character.", 0, 3, 1),
            Token::Error("Unexpected character.", 3, 7, 1),
            Token::Identifier(7, 8, 1),
        ],
        tokenize("\u{20ac}\u{1f600}a")
    );
    assert_eq!(vec![Token::String(1, 3, 1)], tokenize("\"\u{e9}\""));
    assert_eq!(
        vec![Token::Identifier(0, 1, 1), Token::Semicolon(9, 10, 2)],
        tokenize("a # \u{20ac};\n;")
    );
}

#[test]
fn punctuation() {
    assert_eq!(
        vec![
            Token::LeftBrace(0, 1, 1),
            Token::RightBrace(1, 2, 1),
            Token::Equal(2, 3, 1),
            Token::Semicolon(3, 4, 1),
        ],
        tokenize("{}=;")
    );
}

#[test]
fn empty_string() {
    assert_eq!(vec![Token::String(1, 1, 1)], tokenize("\"\""));
}

#[test]
fn position_of_each_kind() {
    assert_eq!(Token::True(1, 2, 3).position(), (1, 2, 3));
    assert_eq!(Token::False(1, 2, 3).position(), (1, 2, 3));
    assert_eq!(Token::Null(1, 2, 3).position(), (1, 2, 3));
    assert_eq!(Token::Equal(1, 2, 3).position(), (1, 2, 3));
    assert_eq!(Token::Semicolon(1, 2, 3).position(), (1, 2, 3));
    assert_eq!(Token::LeftBrace(1, 2, 3).position(), (1, 2, 3));
    assert_eq!(Token::RightBrace(1, 2, 3).position(), (1, 2, 3));
    assert_eq!(Token::Error("x", 1, 2, 3).position(), (1, 2, 3));
    assert_eq!(Token::String(1, 2, 3).position(), (1, 2, 3));
    assert_eq!(Token::Identifier(1, 2, 3).position(), (1, 2, 3));
    assert_eq!(Token::Float64(1, 2, 3).position(), (1, 2, 3));
    assert_eq!(Token::Integer(1, 2, 3).position(), (1, 2, 3));
    assert_eq!(Token::Eof.position(), (0, 0, 0));
}

#[test]
fn scanner_accessors() {
    let source = "ab \"c\u{e9}\"\n";
    let mut scanner = Scanner::new(source);
    assert_eq!(scanner.source_length(), 9);
    assert_eq!(scanner.current_line(), 1);
    assert_eq!(scanner.scan_token(), Some(Token::Identifier(0, 2, 1)));
    assert_eq!(scanner.source_slice(0, 2), "ab");
    assert_eq!(scanner.scan_token(), Some(Token::String(4, 7, 1)));
    assert_eq!(scanner.source_slice(4, 7), "c\u{e9}");
    assert_eq!(scanner.source_slice(3, 3), "");
    assert_eq!(scanner.current_line(), 1);
    assert_eq!(scanner.scan_token(), None);
    assert_eq!(scanner.current_line(), 2);
    assert_eq!(scanner.scan_token(), None);
    assert_eq!(scanner.source_slice(0, 9), source);
}

#[test]
fn end_of_input_is_reported_again_and_again() {
    let mut scanner = Scanner::new("a");
    assert_eq!(scanner.scan_token(), Some(Token::Identifier(0, 1, 1)));
    assert_eq!(scanner.scan_token(), None);
    assert_eq!(scanner.scan_token(), None);
}
