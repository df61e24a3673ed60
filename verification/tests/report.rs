use sdlang::parser::{parse_source, SyntaxError};
use sdlang::report::render;

#[test]
fn report_shows_the_line() {
    let source = "a 1;\nsize 8080\n";
    let parsed = parse_source(source);
    let error = parsed.error.unwrap();
    assert_eq!(
        error,
        SyntaxError { message: "Expect ';' or '{'.", start: 10, end: 14, line: 2 }
    );
    assert_eq!(
        render(source, &error),
        "Syntax error at line 2: Expect ';' or '{'.\n   |\n2  | 8080\n   | ^\n\n"
    );
}

#[test]
fn report_shows_the_rest_of_the_line() {
    let source = "a 1;\nb c 2 \"x\"; # why\nd";
    let parsed = parse_source(source);
    let error = parsed.error.unwrap();
    let expected = [
        "Syntax error at line 2: Expect literal value or attribute.\n",
        "   |\n",
        "2  | c 2 \"x\"; # why\n",
        "   | ^\n\n",
    ];
    assert_eq!(render(source, &error), expected.concat());
}

#[test]
fn report_at_the_end_of_the_source() {
    let source = "a b=";
    let error = parse_source(source).error.unwrap();
    assert_eq!(
        render(source, &error),
        "Syntax error at line 1: Expect literal after '='.\n   |\n1  | =\n   | ^\n\n"
    );
    let error = SyntaxError { message: "Expect identifier.", start: 4, end: 4, line: 12 };
    assert_eq!(
        render(source, &error),
        "Syntax error at line 12: Expect identifier.\n   |\n12  | \n   | ^\n\n"
    );
}

#[test]
fn report_of_an_error_over_several_lines() {
    let source = "a \"b\nc;\nd";
    let error = parse_source(source).error.unwrap();
    assert_eq!(
        error,
        SyntaxError { message: "Unterminated string.", start: 2, end: 9, line: 1 }
    );
    assert_eq!(
        render(source, &error),
        "Syntax error at line 1: Unterminated string.\n   |\n1  | \"b\nc;\nd\n   | ^\n\n"
    );
}

#[test]
fn report_with_characters_of_several_bytes() {
    let source = "a \u{e9} \u{20ac};";
    let error = parse_source(source).error.unwrap();
    assert_eq!(
        render(source, &error),
        "Syntax error at line 1: Unexpected character.\n   |\n1  | \u{e9} \u{20ac};\n   | ^\n\n"
    );
}
