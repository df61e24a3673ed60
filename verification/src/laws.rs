//! What holds of scanning and reading as a whole.

use crate::grammar::{
    attribute_or_literal, body, children, declaration, ends_body, failure_at, identifier,
    is_literal, item_width, left, lemma_body_end, read, token_at, TagView, ValueView,
};
use crate::lexis::{
    digit_at, is_blank, is_digit, lemma_newlines_bound, lemma_run_end_bounds,
    lemma_run_end_bytes, lemma_run_end_is, lemma_skip_trivia_bounds, lemma_tokens_lexed,
    lemma_tokens_ok, lemma_tokens_unfold, lexed, lexeme, line_at, newlines, opens_comment,
    run_end, scan, skip_trivia, token_ok, tokens_from, Run, NEWLINE, QUOTE,
};
use crate::parser::{Parsed, SyntaxError};
use crate::scanner::Token;
use crate::text::{boundary, lemma_text_between};
use vstd::prelude::*;
use vstd::utf8::valid_utf8;

verus! {

/// Reading is a function of the source: two readings of one text give the
/// same tags and the same error.
pub proof fn lemma_reading_twice(src: Seq<u8>, first: Parsed, second: Parsed)
    requires
        first@ == read(src),
        second@ == read(src),
    ensures
        first@.tags == second@.tags,
        first@.error == second@.error,
{
}

/// There are no fewer newlines before a later position than before an
/// earlier one.
proof fn lemma_newlines_grow(src: Seq<u8>, i: int, j: int)
    requires
        0 <= i <= j <= src.len(),
    ensures
        newlines(src, i) <= newlines(src, j),
    decreases j - i,
{
    if i < j {
        lemma_newlines_grow(src, i, j - 1);
    }
}

/// Whether `token` lies in `src` at or after `from`: its offsets are in
/// order and between `from` and the end of `src`, and its line is the line
/// of a position between `from` and its start.
pub open spec fn lies_after(src: Seq<u8>, token: Token, from: int) -> bool {
    let (start, end, line) = token.span();
    &&& from <= start <= end <= src.len()
    &&& line_at(src, from) <= line <= line_at(src, start as int)
}

/// The token that starts at a byte lies at or after that byte and ends
/// where scanning goes on, or before.
proof fn lemma_lexeme_lies(src: Seq<u8>, start: int)
    requires
        0 <= start < src.len() < usize::MAX,
    ensures
        lies_after(src, lexeme(src, start).token, start),
        lexeme(src, start).token.span().1 <= lexeme(src, start).end <= src.len(),
{
    lemma_newlines_bound(src, start);
    lemma_newlines_grow(src, start, start + 1);
    lemma_run_end_bounds(src, start + 1, Run::Name);
    lemma_run_end_bounds(src, start + 1, Run::Quoted);
    lemma_run_end_bounds(src, start + 1, Run::Continuation);
    if is_digit(src[start]) {
        let whole = run_end(src, start, Run::Digits);
        lemma_run_end_bounds(src, start + 1, Run::Digits);
        if whole < src.len() && digit_at(src, whole + 1) {
            let fraction = run_end(src, whole + 1, Run::Digits);
            lemma_run_end_bounds(src, whole + 1, Run::Digits);
            if fraction + 1 <= src.len() {
                lemma_run_end_bounds(src, fraction + 1, Run::Digits);
            }
            if fraction + 2 <= src.len() {
                lemma_run_end_bounds(src, fraction + 2, Run::Digits);
            }
        }
    }
}

/// The tokens of a source follow one another: each lies inside the source
/// with its offsets in order, each starts where the one before it ends, or
/// later, and the lines of the tokens never go down.
pub proof fn lemma_tokens_in_order(src: Seq<u8>, pos: int)
    requires
        0 <= pos <= src.len() < usize::MAX,
    ensures
        forall|k: int|
            0 <= k < tokens_from(src, pos).len() ==> lies_after(
                src,
                #[trigger] tokens_from(src, pos)[k],
                pos,
            ),
        forall|j: int, k: int|
            0 <= j < k < tokens_from(src, pos).len() ==> lies_after(
                src,
                #[trigger] tokens_from(src, pos)[k],
                (#[trigger] tokens_from(src, pos)[j]).span().1 as int,
            ),
    decreases src.len() - pos,
{
    let toks = tokens_from(src, pos);
    let step = scan(src, pos);
    lemma_skip_trivia_bounds(src, pos);
    lemma_tokens_unfold(src, pos);
    if let Some(first) = step.token {
        let start = skip_trivia(src, pos);
        let rest = tokens_from(src, step.pos);
        lemma_lexeme_lies(src, start);
        lemma_newlines_grow(src, pos, start);
        lemma_tokens_in_order(src, step.pos);
        let end = first.span().1 as int;
        lemma_newlines_grow(src, pos, end);
        lemma_newlines_grow(src, end, step.pos);
        lemma_newlines_grow(src, first.span().0 as int, end);
        assert forall|k: int| 0 <= k < toks.len() implies lies_after(
            src,
            #[trigger] toks[k],
            pos,
        ) by {
            if k > 0 {
                assert(toks[k] == rest[k - 1]);
                assert(lies_after(src, rest[k - 1], step.pos));
                lemma_newlines_grow(src, pos, step.pos);
            }
        }
        assert forall|j: int, k: int| 0 <= j < k < toks.len() implies lies_after(
            src,
            #[trigger] toks[k],
            (#[trigger] toks[j]).span().1 as int,
        ) by {
            assert(toks[k] == rest[k - 1]);
            if j > 0 {
                assert(toks[j] == rest[j - 1]);
            } else {
                assert(lies_after(src, rest[k - 1], step.pos));
            }
        }
    }
}

/// Whether the byte at `j` lies in a comment: a comment starts at or before
/// it, with no newline from there up to it.
pub open spec fn in_comment(src: Seq<u8>, j: int) -> bool {
    exists|c: int| #[trigger]
        opens_comment(src, c) && c <= j < src.len() && run_end(src, c, Run::Line) > j
}

/// What the scanner skips is blanks and whole comments: from position `p`
/// it goes on at a position at which neither a blank nor a comment starts,
/// or at the end of the source, and every byte that it goes over is blank
/// or lies in a comment.
pub proof fn lemma_trivia_is_skipped(src: Seq<u8>, p: int)
    requires
        0 <= p <= src.len(),
    ensures
        p <= skip_trivia(src, p) <= src.len(),
        skip_trivia(src, p) < src.len() ==> !is_blank(src[skip_trivia(src, p)]) && !opens_comment(
            src,
            skip_trivia(src, p),
        ),
        forall|j: int| p <= j < skip_trivia(src, p) ==> is_blank(#[trigger] src[j]) || in_comment(
            src,
            j,
        ),
    decreases src.len() - p,
{
    if p < src.len() {
        if is_blank(src[p]) {
            lemma_trivia_is_skipped(src, p + 1);
        } else if opens_comment(src, p) {
            let end = run_end(src, p + 1, Run::Line);
            lemma_run_end_bounds(src, p + 1, Run::Line);
            lemma_trivia_is_skipped(src, end);
            assert(run_end(src, p, Run::Line) == end);
            assert forall|j: int| p <= j < skip_trivia(src, p) implies is_blank(
                #[trigger] src[j],
            ) || in_comment(src, j) by {
                if j < end {
                    assert(opens_comment(src, p) && p <= j < src.len() && run_end(
                        src,
                        p,
                        Run::Line,
                    ) > j);
                }
            }
        }
    }
}

/// A comment is skipped through the end of its line: where a comment starts
/// at `i`, the scanner goes on at the next newline or after it, and the
/// token that it finds starts there or later, so that nothing from the
/// marker to the end of the line is part of a token.
pub proof fn lemma_comment_is_skipped(src: Seq<u8>, i: int)
    requires
        src.len() < usize::MAX,
        opens_comment(src, i),
    ensures
        i < run_end(src, i, Run::Line) <= skip_trivia(src, i),
        run_end(src, i, Run::Line) < src.len() ==> src[run_end(src, i, Run::Line)] == NEWLINE,
        forall|j: int| i <= j < run_end(src, i, Run::Line) ==> #[trigger] src[j] != NEWLINE,
        scan(src, i).token matches Some(token) ==> run_end(src, i, Run::Line) <= token.span().0,
{
    let end = run_end(src, i + 1, Run::Line);
    lemma_run_end_bounds(src, i + 1, Run::Line);
    lemma_run_end_bytes(src, i, Run::Line);
    lemma_skip_trivia_bounds(src, end);
    assert(run_end(src, i, Run::Line) == end);
    if skip_trivia(src, i) < src.len() {
        lemma_lexeme_lies(src, skip_trivia(src, i));
    }
}

/// A string that is left open is one error token, and the source ends with
/// it: where a quote at `start` has no quote after it, the token there is
/// the error `Unterminated string.` from the quote to the end of the
/// source, and no token follows it.
pub proof fn lemma_unterminated_string(src: Seq<u8>, start: int)
    requires
        0 <= start < src.len(),
        src[start] == QUOTE,
        forall|j: int| start < j < src.len() ==> src[j] != QUOTE,
    ensures
        lexeme(src, start).token == Token::Error(
            "Unterminated string.",
            start as usize,
            src.len() as usize,
            line_at(src, start) as usize,
        ),
        tokens_from(src, start) == seq![lexeme(src, start).token],
{
    lemma_run_end_is(src, start + 1, src.len() as int, Run::Quoted);
    lemma_tokens_unfold(src, start);
    assert(skip_trivia(src, start) == start);
    assert(tokens_from(src, start) =~= seq![lexeme(src, start).token]);
}

/// An identifier alone is neither an attribute nor a value: where no `=`
/// follows an identifier, what is read there fails with
/// `Expect literal value or attribute.` at the identifier; and whatever is
/// read as a bare value is read from a literal.
pub proof fn lemma_identifier_is_no_value(toks: Seq<Token>, src: Seq<u8>, i: int)
    ensures
        token_at(toks, i) is Identifier && !(token_at(toks, i + 1) is Equal)
            ==> attribute_or_literal(toks, src, i) == Err::<
            (Option<Seq<char>>, ValueView),
            SyntaxError,
        >(failure_at("Expect literal value or attribute.", token_at(toks, i))),
        attribute_or_literal(toks, src, i) matches Ok((None, _)) ==> is_literal(token_at(toks, i)),
        attribute_or_literal(toks, src, i) matches Ok((Some(_), _)) ==> token_at(toks, i)
            is Identifier && token_at(toks, i + 1) is Equal && is_literal(token_at(toks, i + 2)),
{
}

/// A block of children ends with its closing brace.
proof fn lemma_children_end(toks: Seq<Token>, src: Seq<u8>, i: int, found: Seq<TagView>)
    ensures
        children(toks, src, i, found) matches Ok((_, more)) ==> more >= 1 && token_at(
            toks,
            i + more - 1,
        ) is RightBrace,
    decreases left(toks, i),
{
    match token_at(toks, i) {
        Token::RightBrace(..) => {},
        Token::Eof => {},
        _ => {
            if let Ok((tag, after)) = declaration(toks, src, i) {
                lemma_children_end(toks, src, i + 1 + after, found.push(tag));
            }
        },
    }
}

/// The values and attributes of a tag leave its name as it is.
proof fn lemma_body_keeps_name(toks: Seq<Token>, src: Seq<u8>, i: int, tag: TagView)
    ensures
        body(toks, src, i, tag) matches Ok((filled, _)) ==> filled.name == tag.name,
    decreases left(toks, i),
{
    if !ends_body(toks, i) {
        match attribute_or_literal(toks, src, i) {
            Err(error) => {},
            Ok((Some(name), value)) => {
                lemma_body_keeps_name(
                    toks,
                    src,
                    i + item_width(toks, i),
                    tag.with_attribute(name, value),
                );
            },
            Ok((None, value)) => {
                lemma_body_keeps_name(
                    toks,
                    src,
                    i + item_width(toks, i),
                    tag.with_value(value),
                );
            },
        }
    }
}

/// Every tag that is declared has a name, and one whose declaration ends
/// with `;` has a value or an attribute.
pub proof fn lemma_declared_tag(src: Seq<u8>, pos: int, i: int)
    requires
        valid_utf8(src),
        src.len() < usize::MAX,
        boundary(src, pos),
    ensures
        declaration(tokens_from(src, pos), src, i) matches Ok((tag, after)) ==> tag.name.len() > 0
            && (token_at(tokens_from(src, pos), i + after) is Semicolon ==> !tag.is_bare()),
{
    let toks = tokens_from(src, pos);
    if let Ok((tag, after)) = declaration(toks, src, i) {
        let name = identifier(toks, src, i)->Ok_0;
        lemma_body_end(toks, src, i + 1, TagView::named(name));
        lemma_body_keeps_name(toks, src, i + 1, TagView::named(name));
        let end = body(toks, src, i + 1, TagView::named(name))->Ok_0.1;
        if token_at(toks, end) is LeftBrace {
            lemma_children_end(toks, src, end + 1, Seq::empty());
        }
        lemma_tokens_ok(src, pos);
        lemma_tokens_lexed(src, pos);
        let token = toks[i];
        assert(token_ok(src, token));
        assert(lexed(src, token));
        let start = choose|start: int|
            0 <= start < src.len() && #[trigger] lexeme(src, start).token == token;
        lemma_run_end_bounds(src, start + 1, Run::Name);
        lemma_newlines_bound(src, start);
        let (first, last, _) = token.span();
        lemma_text_between(src, first as int, last as int);
        assert(src.subrange(first as int, last as int).len() > 0);
    }
}

} // verus!
