//! The lexical structure of the language, as functions on the bytes of the
//! source: where insignificant input ends, which token starts at a given
//! byte, and where that token ends.
//!
//! Positions are byte offsets. A token's line is the number of the line
//! that its first byte is on, counted from 1.

use crate::scanner::Token;
use crate::text::boundary;
use vstd::prelude::*;
use vstd::utf8::{is_continuation_byte, valid_utf8};

verus! {

/// A tab.
pub const TAB: u8 = 0x09;

/// A newline.
pub const NEWLINE: u8 = 0x0a;

/// A carriage return.
pub const RETURN: u8 = 0x0d;

/// A space.
pub const SPACE: u8 = 0x20;

/// The quote that opens and closes a string.
pub const QUOTE: u8 = 0x22;

/// `#`, which opens a comment.
pub const HASH: u8 = 0x23;

/// `$`.
pub const DOLLAR: u8 = 0x24;

/// `+`.
pub const PLUS: u8 = 0x2b;

/// `-`.
pub const MINUS: u8 = 0x2d;

/// `.`.
pub const DOT: u8 = 0x2e;

/// `/`.
pub const SLASH: u8 = 0x2f;

/// The digit `0`.
pub const DIGIT_0: u8 = 0x30;

/// The digit `9`.
pub const DIGIT_9: u8 = 0x39;

/// `:`.
pub const COLON: u8 = 0x3a;

/// `;`.
pub const SEMICOLON: u8 = 0x3b;

/// `=`.
pub const EQUAL: u8 = 0x3d;

/// The letter `A`.
pub const UPPER_A: u8 = 0x41;

/// The letter `E`.
pub const UPPER_E: u8 = 0x45;

/// The letter `Z`.
pub const UPPER_Z: u8 = 0x5a;

/// `_`.
pub const UNDERSCORE: u8 = 0x5f;

/// The letter `a`.
pub const LOWER_A: u8 = 0x61;

/// The letter `e`.
pub const LOWER_E: u8 = 0x65;

/// The letter `z`.
pub const LOWER_Z: u8 = 0x7a;

/// `{`.
pub const LEFT_BRACE: u8 = 0x7b;

/// `}`.
pub const RIGHT_BRACE: u8 = 0x7d;

/// An ASCII letter.
pub open spec fn is_alpha(b: u8) -> bool {
    (UPPER_A <= b <= UPPER_Z) || (LOWER_A <= b <= LOWER_Z)
}

/// A decimal digit.
pub open spec fn is_digit(b: u8) -> bool {
    DIGIT_0 <= b <= DIGIT_9
}

/// A byte that may follow the first letter of an identifier.
pub open spec fn is_name_byte(b: u8) -> bool {
    is_alpha(b) || is_digit(b) || b == UNDERSCORE || b == COLON || b == DOLLAR || b == MINUS
}

/// Space, tab, carriage return or newline.
pub open spec fn is_blank(b: u8) -> bool {
    b == SPACE || b == TAB || b == RETURN || b == NEWLINE
}

/// The kinds of byte runs that the scanner consumes as a whole.
#[derive(Clone, Copy)]
pub enum Run {
    /// The bytes of an identifier after its first letter.
    Name,
    /// Decimal digits.
    Digits,
    /// The inside of a string: anything but `"`.
    Quoted,
    /// The bytes that continue a multi-byte character.
    Continuation,
    /// The rest of a line, which is what a comment takes up: anything but
    /// newline.
    Line,
}

/// Whether byte `b` belongs to a run of kind `run`.
pub open spec fn in_run(run: Run, b: u8) -> bool {
    match run {
        Run::Name => is_name_byte(b),
        Run::Digits => is_digit(b),
        Run::Quoted => b != QUOTE,
        Run::Continuation => is_continuation_byte(b),
        Run::Line => b != NEWLINE,
    }
}

/// The first position at or after `i` whose byte is not in `run`, or the
/// end of `src` where there is none.
pub open spec fn run_end(src: Seq<u8>, i: int, run: Run) -> int
    decreases src.len() - i,
{
    if 0 <= i < src.len() && in_run(run, src[i]) {
        run_end(src, i + 1, run)
    } else {
        i
    }
}

/// Whether a comment starts at position `i`: `#`, `//` or `--`.
pub open spec fn opens_comment(src: Seq<u8>, i: int) -> bool {
    &&& 0 <= i < src.len()
    &&& {
        ||| src[i] == HASH
        ||| (src[i] == SLASH && i + 1 < src.len() && src[i + 1] == SLASH)
        ||| (src[i] == MINUS && i + 1 < src.len() && src[i + 1] == MINUS)
    }
}

/// The first position at or after `i` that is neither blank nor inside a
/// comment, or the end of `src`. A comment runs from its marker through the
/// end of its line, whatever stands on it: up to, and not including, the
/// next newline, or up to the end of `src`.
pub open spec fn skip_trivia(src: Seq<u8>, i: int) -> int
    decreases src.len() - i,
{
    if i < 0 || i >= src.len() {
        i
    } else if is_blank(src[i]) {
        skip_trivia(src, i + 1)
    } else if opens_comment(src, i) {
        proof {
            lemma_run_end_bounds(src, i + 1, Run::Line);
        }
        skip_trivia(src, run_end(src, i + 1, Run::Line))
    } else {
        i
    }
}

/// The number of newline bytes before position `i`.
pub open spec fn newlines(src: Seq<u8>, i: int) -> nat
    decreases i,
{
    if i <= 0 || i > src.len() {
        0
    } else {
        newlines(src, i - 1) + if src[i - 1] == NEWLINE { 1nat } else { 0nat }
    }
}

/// The number of the line that position `i` is on, counted from 1.
pub open spec fn line_at(src: Seq<u8>, i: int) -> nat {
    1 + newlines(src, i)
}

/// A token together with the position where scanning goes on after it.
pub struct Lexeme {
    pub token: Token,
    pub end: int,
}

/// The bytes of the reserved word `true`.
pub open spec fn word_true() -> Seq<u8> {
    seq![0x74u8, 0x72u8, 0x75u8, 0x65u8]
}

/// The bytes of the reserved word `false`.
pub open spec fn word_false() -> Seq<u8> {
    seq![0x66u8, 0x61u8, 0x6cu8, 0x73u8, 0x65u8]
}

/// The bytes of the reserved word `null`.
pub open spec fn word_null() -> Seq<u8> {
    seq![0x6eu8, 0x75u8, 0x6cu8, 0x6cu8]
}

/// The token for the word that the bytes from `start` up to `end` spell:
/// `true`, `false` and `null` are keywords, every other word is an
/// identifier.
pub open spec fn word_token(src: Seq<u8>, start: int, end: int, line: nat) -> Token {
    let lexeme = src.subrange(start, end);
    if lexeme == word_true() {
        Token::True(start as usize, end as usize, line as usize)
    } else if lexeme == word_false() {
        Token::False(start as usize, end as usize, line as usize)
    } else if lexeme == word_null() {
        Token::Null(start as usize, end as usize, line as usize)
    } else {
        Token::Identifier(start as usize, end as usize, line as usize)
    }
}

/// The identifier or keyword that starts with the letter at `start`. It
/// runs as far as name bytes follow.
pub open spec fn word(src: Seq<u8>, start: int) -> Lexeme {
    let end = run_end(src, start + 1, Run::Name);
    Lexeme { token: word_token(src, start, end, line_at(src, start)), end }
}

/// Whether the byte at `i` exists and is a digit.
pub open spec fn digit_at(src: Seq<u8>, i: int) -> bool {
    0 <= i < src.len() && is_digit(src[i])
}

/// The number that starts with the digit at `start`.
///
/// A run of digits alone is an integer. Where a `.` follows, a digit must
/// follow it, or the digits and the dot are an error token. The fraction
/// may be followed by an exponent: `e` or `E`, an optional sign and at
/// least one digit; an exponent without a digit is an error token that
/// ends after the sign.
pub open spec fn number(src: Seq<u8>, start: int) -> Lexeme {
    let line = line_at(src, start) as usize;
    let first = start as usize;
    let whole_end = run_end(src, start, Run::Digits);
    if !(whole_end < src.len() && src[whole_end] == DOT) {
        Lexeme { token: Token::Integer(first, whole_end as usize, line), end: whole_end }
    } else if !digit_at(src, whole_end + 1) {
        Lexeme {
            token: Token::Error(
                "'.' must be followed by digit.",
                first,
                (whole_end + 1) as usize,
                line,
            ),
            end: whole_end + 1,
        }
    } else {
        let fraction_end = run_end(src, whole_end + 1, Run::Digits);
        if !(fraction_end < src.len() && (src[fraction_end] == LOWER_E || src[fraction_end]
            == UPPER_E)) {
            Lexeme { token: Token::Float64(first, fraction_end as usize, line), end: fraction_end }
        } else {
            let signed = fraction_end + 1 < src.len() && (src[fraction_end + 1] == PLUS
                || src[fraction_end + 1] == MINUS);
            let digits = if signed {
                fraction_end + 2
            } else {
                fraction_end + 1
            };
            if digit_at(src, digits) {
                let end = run_end(src, digits, Run::Digits);
                Lexeme { token: Token::Float64(first, end as usize, line), end }
            } else {
                Lexeme {
                    token: Token::Error("Illegal float.", first, digits as usize, line),
                    end: digits,
                }
            }
        }
    }
}

/// The string that starts with the quote at `start`. It ends with the next
/// quote, whatever stands between the two; the token spans what is between
/// them. Without a closing quote the rest of the source is an error token.
pub open spec fn string(src: Seq<u8>, start: int) -> Lexeme {
    let line = line_at(src, start) as usize;
    let close = run_end(src, start + 1, Run::Quoted);
    if close < src.len() {
        Lexeme { token: Token::String((start + 1) as usize, close as usize, line), end: close + 1 }
    } else {
        Lexeme {
            token: Token::Error("Unterminated string.", start as usize, close as usize, line),
            end: close,
        }
    }
}

/// The token that starts at `start`, a position inside `src`.
///
/// A letter starts a word, a digit a number, a quote a string; `=`, `;`,
/// `{` and `}` are tokens of their own. Any other character is an error
/// token that spans that one character.
pub open spec fn lexeme(src: Seq<u8>, start: int) -> Lexeme {
    let b = src[start];
    let line = line_at(src, start) as usize;
    let first = start as usize;
    let after = (start + 1) as usize;
    if is_alpha(b) {
        word(src, start)
    } else if is_digit(b) {
        number(src, start)
    } else if b == QUOTE {
        string(src, start)
    } else if b == EQUAL {
        Lexeme { token: Token::Equal(first, after, line), end: start + 1 }
    } else if b == SEMICOLON {
        Lexeme { token: Token::Semicolon(first, after, line), end: start + 1 }
    } else if b == LEFT_BRACE {
        Lexeme { token: Token::LeftBrace(first, after, line), end: start + 1 }
    } else if b == RIGHT_BRACE {
        Lexeme { token: Token::RightBrace(first, after, line), end: start + 1 }
    } else {
        let end = run_end(src, start + 1, Run::Continuation);
        Lexeme { token: Token::Error("Unexpected character.", first, end as usize, line), end }
    }
}

/// One step of the scanner from position `pos`.
pub struct Step {
    /// The next token, or `None` where only insignificant input is left.
    pub token: Option<Token>,
    /// The position after that token, or the end of the source.
    pub pos: int,
}

/// The next token at or after `pos`, and the position after it.
pub open spec fn scan(src: Seq<u8>, pos: int) -> Step {
    let start = skip_trivia(src, pos);
    if 0 <= start < src.len() {
        let found = lexeme(src, start);
        Step { token: Some(found.token), pos: found.end }
    } else {
        Step { token: None, pos: start }
    }
}

/// All the tokens of `src` from position `pos` on, in order.
pub open spec fn tokens_from(src: Seq<u8>, pos: int) -> Seq<Token>
    decreases src.len() - pos,
{
    let step = scan(src, pos);
    match step.token {
        None => Seq::empty(),
        Some(token) => {
            proof {
                lemma_scan_advances(src, pos);
            }
            seq![token] + tokens_from(src, step.pos)
        },
    }
}

/// A run ends at or after its start and inside the source.
pub proof fn lemma_run_end_bounds(src: Seq<u8>, i: int, run: Run)
    requires
        0 <= i <= src.len(),
    ensures
        i <= run_end(src, i, run) <= src.len(),
    decreases src.len() - i,
{
    if i < src.len() && in_run(run, src[i]) {
        lemma_run_end_bounds(src, i + 1, run);
    }
}

/// Every byte of a run is of its kind, and the byte after it is not.
pub proof fn lemma_run_end_bytes(src: Seq<u8>, i: int, run: Run)
    requires
        0 <= i <= src.len(),
    ensures
        forall|j: int| i <= j < run_end(src, i, run) ==> in_run(run, #[trigger] src[j]),
        run_end(src, i, run) < src.len() ==> !in_run(run, src[run_end(src, i, run)]),
    decreases src.len() - i,
{
    if i < src.len() && in_run(run, src[i]) {
        lemma_run_end_bytes(src, i + 1, run);
    }
}

/// A run ends at the first byte that is not of its kind: where all bytes
/// from `i` up to `end` are of the kind and the byte at `end`, if there
/// is one, is not, the run from `i` ends at `end`.
pub proof fn lemma_run_end_is(src: Seq<u8>, i: int, end: int, run: Run)
    requires
        0 <= i <= end <= src.len(),
        forall|j: int| i <= j < end ==> in_run(run, #[trigger] src[j]),
        end < src.len() ==> !in_run(run, src[end]),
    ensures
        run_end(src, i, run) == end,
    decreases end - i,
{
    if i < end {
        assert(in_run(run, src[i]));
        lemma_run_end_is(src, i + 1, end, run);
    }
}

/// Whether the offsets of `token` delimit whole characters of `src`.
pub open spec fn spans_text(src: Seq<u8>, token: Token) -> bool {
    let (start, end, line) = token.span();
    start <= end && boundary(src, start as int) && boundary(src, end as int)
}

/// Insignificant input ends between two characters.
pub proof fn lemma_skip_trivia_boundary(src: Seq<u8>, i: int)
    requires
        valid_utf8(src),
        boundary(src, i),
    ensures
        boundary(src, skip_trivia(src, i)),
    decreases src.len() - i,
{
    if i < src.len() {
        if is_blank(src[i]) {
            crate::text::lemma_boundary_after_ascii(src, i);
            lemma_skip_trivia_boundary(src, i + 1);
        } else if opens_comment(src, i) {
            let end = run_end(src, i + 1, Run::Line);
            lemma_run_end_bounds(src, i + 1, Run::Line);
            lemma_run_end_bytes(src, i + 1, Run::Line);
            lemma_skip_trivia_boundary(src, end);
        }
    }
}

/// A run that follows an ASCII byte ends between two characters.
pub proof fn lemma_run_end_boundary(src: Seq<u8>, i: int, run: Run)
    requires
        valid_utf8(src),
        0 < i <= src.len(),
        src[i - 1] <= 0x7f,
        run is Name || run is Digits,
    ensures
        boundary(src, run_end(src, i, run)),
{
    let end = run_end(src, i, run);
    lemma_run_end_bounds(src, i, run);
    lemma_run_end_bytes(src, i, run);
    if end > i {
        assert(in_run(run, src[end - 1]));
    }
    crate::text::lemma_boundary_after_ascii(src, end - 1);
}

/// A token that starts between two characters ends between two characters,
/// and so does the text that it delimits.
pub proof fn lemma_lexeme_boundary(src: Seq<u8>, start: int)
    requires
        valid_utf8(src),
        0 <= start < src.len() < usize::MAX,
        boundary(src, start),
    ensures
        boundary(src, lexeme(src, start).end),
        spans_text(src, lexeme(src, start).token),
{
    let b = src[start];
    lemma_lexeme_bounds(src, start);
    lemma_newlines_bound(src, start);
    if is_alpha(b) {
        lemma_run_end_boundary(src, start + 1, Run::Name);
    } else if is_digit(b) {
        let whole_end = run_end(src, start, Run::Digits);
        lemma_run_end_boundary(src, start + 1, Run::Digits);
        lemma_run_end_bounds(src, start + 1, Run::Digits);
        if whole_end < src.len() && src[whole_end] == DOT {
            crate::text::lemma_boundary_after_ascii(src, whole_end);
            if digit_at(src, whole_end + 1) {
                let fraction_end = run_end(src, whole_end + 1, Run::Digits);
                lemma_run_end_bounds(src, whole_end + 1, Run::Digits);
                lemma_run_end_boundary(src, whole_end + 1, Run::Digits);
                if fraction_end < src.len() && (src[fraction_end] == LOWER_E || src[fraction_end]
                    == UPPER_E) {
                    crate::text::lemma_boundary_after_ascii(src, fraction_end);
                    lemma_run_end_bounds(src, fraction_end + 1, Run::Digits);
                    lemma_run_end_boundary(src, fraction_end + 1, Run::Digits);
                    if fraction_end + 1 < src.len() && (src[fraction_end + 1] == PLUS
                        || src[fraction_end + 1] == MINUS) {
                        crate::text::lemma_boundary_after_ascii(src, fraction_end + 1);
                        lemma_run_end_bounds(src, fraction_end + 2, Run::Digits);
                        lemma_run_end_boundary(src, fraction_end + 2, Run::Digits);
                    }
                }
            }
        }
    } else if b == QUOTE {
        let close = run_end(src, start + 1, Run::Quoted);
        lemma_run_end_bounds(src, start + 1, Run::Quoted);
        lemma_run_end_bytes(src, start + 1, Run::Quoted);
        crate::text::lemma_boundary_after_ascii(src, start);
        if close < src.len() {
            crate::text::lemma_boundary_after_ascii(src, close);
        }
    } else if b == EQUAL || b == SEMICOLON || b == LEFT_BRACE || b == RIGHT_BRACE {
        crate::text::lemma_boundary_after_ascii(src, start);
    } else {
        lemma_run_end_bounds(src, start + 1, Run::Continuation);
        lemma_run_end_bytes(src, start + 1, Run::Continuation);
    }
}

/// A step of the scanner from between two characters ends between two
/// characters, and the token that it finds delimits whole characters.
pub proof fn lemma_scan_boundary(src: Seq<u8>, pos: int)
    requires
        valid_utf8(src),
        src.len() < usize::MAX,
        boundary(src, pos),
    ensures
        boundary(src, scan(src, pos).pos),
        scan(src, pos).token matches Some(token) ==> spans_text(src, token),
{
    lemma_skip_trivia_boundary(src, pos);
    lemma_skip_trivia_bounds(src, pos);
    let start = skip_trivia(src, pos);
    if start < src.len() {
        lemma_lexeme_boundary(src, start);
    }
}

/// Whether `token` is one that the scanner hands out for `src`: not the
/// end marker, and delimiting whole characters.
pub open spec fn token_ok(src: Seq<u8>, token: Token) -> bool {
    token !is Eof && spans_text(src, token)
}

/// The tokens from `pos` on are the next token and the tokens after it; at
/// the end of the source there are none.
pub proof fn lemma_tokens_unfold(src: Seq<u8>, pos: int)
    requires
        0 <= pos <= src.len(),
    ensures
        match scan(src, pos).token {
            Some(token) => tokens_from(src, pos) == seq![token] + tokens_from(
                src,
                scan(src, pos).pos,
            ),
            None => tokens_from(src, pos) == Seq::<Token>::empty() && scan(src, pos).pos
                == src.len(),
        },
        tokens_from(src, src.len() as int) == Seq::<Token>::empty(),
{
    lemma_skip_trivia_bounds(src, pos);
}

/// Every token of a source that starts between two characters is one that
/// the scanner hands out.
pub proof fn lemma_tokens_ok(src: Seq<u8>, pos: int)
    requires
        valid_utf8(src),
        src.len() < usize::MAX,
        boundary(src, pos),
    ensures
        forall|k: int|
            0 <= k < tokens_from(src, pos).len() ==> token_ok(
                src,
                #[trigger] tokens_from(src, pos)[k],
            ),
    decreases src.len() - pos,
{
    lemma_scan_boundary(src, pos);
    lemma_scan_advances(src, pos);
    let step = scan(src, pos);
    if step.token is Some {
        lemma_tokens_ok(src, step.pos);
        let rest = tokens_from(src, step.pos);
        assert forall|k: int| 0 <= k < tokens_from(src, pos).len() implies token_ok(
            src,
            #[trigger] tokens_from(src, pos)[k],
        ) by {
            if k > 0 {
                assert(tokens_from(src, pos)[k] == rest[k - 1]);
            }
        }
    }
}

/// Whether `token` is the token that starts at some byte of `src`.
pub open spec fn lexed(src: Seq<u8>, token: Token) -> bool {
    exists|start: int| 0 <= start < src.len() && #[trigger] lexeme(src, start).token == token
}

/// Every token of a source is the token that starts at some byte of it.
pub proof fn lemma_tokens_lexed(src: Seq<u8>, pos: int)
    requires
        0 <= pos <= src.len(),
    ensures
        forall|k: int|
            0 <= k < tokens_from(src, pos).len() ==> lexed(
                src,
                #[trigger] tokens_from(src, pos)[k],
            ),
    decreases src.len() - pos,
{
    lemma_scan_advances(src, pos);
    lemma_skip_trivia_bounds(src, pos);
    let step = scan(src, pos);
    if step.token is Some {
        lemma_tokens_lexed(src, step.pos);
        let rest = tokens_from(src, step.pos);
        assert forall|k: int| 0 <= k < tokens_from(src, pos).len() implies lexed(
            src,
            #[trigger] tokens_from(src, pos)[k],
        ) by {
            if k > 0 {
                assert(tokens_from(src, pos)[k] == rest[k - 1]);
            } else {
                assert(lexeme(src, skip_trivia(src, pos)).token == tokens_from(src, pos)[0]);
            }
        }
    }
}

/// There are no more newlines before a position than bytes.
pub proof fn lemma_newlines_bound(src: Seq<u8>, i: int)
    ensures
        newlines(src, i) <= if i < 0 { 0 } else { i },
    decreases i,
{
    if 0 < i <= src.len() {
        lemma_newlines_bound(src, i - 1);
    }
}

/// Insignificant input ends at or after its start and inside the source.
pub proof fn lemma_skip_trivia_bounds(src: Seq<u8>, i: int)
    requires
        0 <= i <= src.len(),
    ensures
        i <= skip_trivia(src, i) <= src.len(),
    decreases src.len() - i,
{
    if i < src.len() {
        if is_blank(src[i]) {
            lemma_skip_trivia_bounds(src, i + 1);
        } else if opens_comment(src, i) {
            lemma_run_end_bounds(src, i + 1, Run::Line);
            lemma_skip_trivia_bounds(src, run_end(src, i + 1, Run::Line));
        }
    }
}

/// A token is never empty: the position after it lies past its first byte
/// and inside the source.
pub proof fn lemma_lexeme_bounds(src: Seq<u8>, start: int)
    requires
        0 <= start < src.len(),
    ensures
        start < lexeme(src, start).end <= src.len(),
{
    lemma_run_end_bounds(src, start + 1, Run::Name);
    lemma_run_end_bounds(src, start + 1, Run::Quoted);
    lemma_run_end_bounds(src, start + 1, Run::Continuation);
    if is_digit(src[start]) {
        let whole_end = run_end(src, start, Run::Digits);
        lemma_run_end_bounds(src, start + 1, Run::Digits);
        if whole_end < src.len() && digit_at(src, whole_end + 1) {
            let fraction_end = run_end(src, whole_end + 1, Run::Digits);
            lemma_run_end_bounds(src, whole_end + 1, Run::Digits);
            if fraction_end + 1 <= src.len() {
                lemma_run_end_bounds(src, fraction_end + 1, Run::Digits);
            }
            if fraction_end + 2 <= src.len() {
                lemma_run_end_bounds(src, fraction_end + 2, Run::Digits);
            }
        }
    }
}

/// Every step of the scanner that finds a token moves forward.
pub proof fn lemma_scan_advances(src: Seq<u8>, pos: int)
    ensures
        scan(src, pos).token is Some ==> pos < scan(src, pos).pos <= src.len(),
        scan(src, pos).token is Some ==> 0 <= pos,
        0 <= pos <= src.len() ==> pos <= scan(src, pos).pos <= src.len(),
{
    if 0 <= pos <= src.len() {
        lemma_skip_trivia_bounds(src, pos);
        let start = skip_trivia(src, pos);
        if start < src.len() {
            lemma_lexeme_bounds(src, start);
        }
    }
}

} // verus!
