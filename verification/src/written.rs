//! What is written in a source is read from it: the token that the
//! scanner finds where a value or a name is written, whatever is written
//! before it, and the value or the name that this token has.

use crate::grammar::{identifier, is_literal, literal, token_at, ValueView};
use crate::lexis::{
    in_run, is_blank, is_digit, lemma_newlines_bound, lemma_run_end_bounds, lemma_run_end_bytes,
    lemma_run_end_is, lemma_scan_advances, lemma_tokens_unfold, lexeme, opens_comment, run_end,
    scan, tokens_from, word_false, word_null, word_true, Run, EQUAL, MINUS, PLUS, QUOTE,
    SEMICOLON, SPACE,
};
use crate::notation::{is_float, is_identifier};
use crate::number::{decimal_text, lemma_decimal_text};
use crate::parser::SyntaxError;
use crate::scanner::Token;
use crate::text::{ascii, lemma_ascii_bytes, lemma_ascii_occurs, lemma_encode_concat};
use vstd::prelude::*;
use vstd::utf8::{encode_utf8, encode_utf8_decode_utf8};

verus! {

/// A run inside a part of the source ends where it ends in that part
/// alone, provided that the byte after the part does not go on with it.
pub proof fn lemma_run_end_inside(src: Seq<u8>, off: int, part: Seq<u8>, k: int, run: Run)
    requires
        0 <= off,
        off + part.len() <= src.len(),
        src.subrange(off, off + part.len()) == part,
        0 <= k <= part.len(),
        off + part.len() < src.len() ==> !in_run(run, src[off + part.len()]),
    ensures
        run_end(src, off + k, run) == off + run_end(part, k, run),
{
    lemma_run_end_bounds(part, k, run);
    lemma_run_end_bytes(part, k, run);
    let end = run_end(part, k, run);
    assert forall|j: int| off + k <= j < off + end implies in_run(run, #[trigger] src[j]) by {
        assert(src[j] == part[j - off]);
    }
    if end < part.len() {
        assert(src[off + end] == part[end]);
    }
    lemma_run_end_is(src, off + k, off + end, run);
}

/// Whether whatever is written before position `q` ends there: the source
/// ends, or the byte at `q` is a space, `;` or `=`.
pub open spec fn stops(src: Seq<u8>, q: int) -> bool {
    q == src.len() || (0 <= q < src.len() && (src[q] == SPACE || src[q] == SEMICOLON || src[q]
        == EQUAL))
}

/// Whether a token starts at `off`: the byte there is neither blank nor
/// the start of a comment.
pub open spec fn starts_token(src: Seq<u8>, off: int) -> bool {
    0 <= off < src.len() && !is_blank(src[off]) && !opens_comment(src, off)
}

/// Whether `token` is a literal with the value `value` in `src`, at
/// whatever index it stands.
pub open spec fn spells(src: Seq<u8>, token: Token, value: ValueView) -> bool {
    &&& is_literal(token)
    &&& forall|toks: Seq<Token>, i: int| #[trigger]
        token_at(toks, i) == token ==> literal(toks, src, i) == Ok::<ValueView, SyntaxError>(
            value,
        )
}

/// A keyword that is written in a source is read as its value.
pub proof fn lemma_written_keyword(src: Seq<u8>, off: int, value: ValueView)
    requires
        value is Boolean || value is Null,
        src.len() < usize::MAX,
        0 <= off,
        src.subrange(off, off + encode_utf8(value.canonical()).len()) == encode_utf8(
            value.canonical(),
        ),
        stops(src, off + encode_utf8(value.canonical()).len()),
    ensures
        starts_token(src, off),
        lexeme(src, off).end == off + encode_utf8(value.canonical()).len(),
        spells(src, lexeme(src, off).token, value),
{
    reveal_strlit("true");
    reveal_strlit("false");
    reveal_strlit("null");
    let part = encode_utf8(value.canonical());
    lemma_ascii_bytes(value.canonical());
    lemma_newlines_bound(src, off);
    assert(part =~= ascii(value.canonical()));
    assert forall|j: int| 0 <= j < part.len() implies src[off + j] == #[trigger] part[j] by {
        assert(src.subrange(off, off + part.len())[j] == part[j]);
    }
    assert(src[off] == part[0]);
    match value {
        ValueView::Boolean(true) => {
            assert(part =~= word_true());
            assert(part[1] == src[off + 1] && part[2] == src[off + 2] && part[3] == src[off + 3]);
            lemma_run_end_is(src, off + 1, off + 4, Run::Name);
        },
        ValueView::Boolean(false) => {
            assert(part =~= word_false());
            assert(part[1] == src[off + 1] && part[2] == src[off + 2] && part[3] == src[off + 3]
                && part[4] == src[off + 4]);
            assert(word_false()[0] != word_true()[0]);
            lemma_run_end_is(src, off + 1, off + 5, Run::Name);
        },
        _ => {
            assert(part =~= word_null());
            assert(part[1] == src[off + 1] && part[2] == src[off + 2] && part[3] == src[off + 3]);
            assert(word_null()[0] != word_true()[0]);
            lemma_run_end_is(src, off + 1, off + 4, Run::Name);
        },
    }
}

/// An integer that is written in a source is read as its value.
pub proof fn lemma_written_integer(src: Seq<u8>, off: int, n: int)
    requires
        0 <= n <= i64::MAX,
        src.len() < usize::MAX,
        0 <= off,
        src.subrange(off, off + encode_utf8(decimal_text(n as nat)).len()) == encode_utf8(
            decimal_text(n as nat),
        ),
        stops(src, off + encode_utf8(decimal_text(n as nat)).len()),
    ensures
        starts_token(src, off),
        lexeme(src, off).end == off + encode_utf8(decimal_text(n as nat)).len(),
        spells(src, lexeme(src, off).token, ValueView::Integer(n)),
{
    let part = encode_utf8(decimal_text(n as nat));
    lemma_decimal_text(n as nat);
    lemma_ascii_bytes(decimal_text(n as nat));
    lemma_newlines_bound(src, off);
    assert forall|j: int| 0 <= j < part.len() implies src[off + j] == #[trigger] part[j] by {
        assert(src.subrange(off, off + part.len())[j] == part[j]);
    }
    assert(src[off] == part[0]);
    assert(is_digit(part[0]));
    assert forall|j: int| off <= j < off + part.len() implies in_run(
        Run::Digits,
        #[trigger] src[j],
    ) by {
        assert(src[j] == part[j - off]);
    }
    lemma_run_end_is(src, off, off + part.len(), Run::Digits);
}

/// A number with a fraction that is written in a source is read as it is
/// written.
pub proof fn lemma_written_float(src: Seq<u8>, off: int, chars: Seq<char>)
    requires
        is_float(encode_utf8(chars)),
        src.len() < usize::MAX,
        0 <= off,
        src.subrange(off, off + encode_utf8(chars).len()) == encode_utf8(chars),
        stops(src, off + encode_utf8(chars).len()),
    ensures
        starts_token(src, off),
        lexeme(src, off).end == off + encode_utf8(chars).len(),
        spells(src, lexeme(src, off).token, ValueView::Float(chars)),
{
    let part = encode_utf8(chars);
    lemma_newlines_bound(src, off);
    encode_utf8_decode_utf8(chars);
    assert forall|j: int| 0 <= j < part.len() implies src[off + j] == #[trigger] part[j] by {
        assert(src.subrange(off, off + part.len())[j] == part[j]);
    }
    assert(src[off] == part[0]);
    let whole = run_end(part, 0, Run::Digits);
    lemma_run_end_bounds(part, 0, Run::Digits);
    lemma_run_end_inside(src, off, part, 0, Run::Digits);
    assert(part[whole] == src[off + whole]);
    assert(part[whole + 1] == src[off + whole + 1]);
    let fraction = run_end(part, whole + 1, Run::Digits);
    lemma_run_end_bounds(part, whole + 1, Run::Digits);
    lemma_run_end_inside(src, off, part, whole + 1, Run::Digits);
    if fraction < part.len() {
        assert(part[fraction] == src[off + fraction]);
        if fraction + 1 < part.len() {
            assert(part[fraction + 1] == src[off + fraction + 1]);
        }
        let signed = fraction + 1 < part.len() && (part[fraction + 1] == PLUS || part[fraction
            + 1] == MINUS);
        let digits = if signed {
            fraction + 2
        } else {
            fraction + 1
        };
        if digits < part.len() {
            assert(part[digits] == src[off + digits]);
        }
        if digits <= part.len() {
            lemma_run_end_inside(src, off, part, digits, Run::Digits);
        }
    }
}

/// A string that is written in a source is read as that string.
pub proof fn lemma_written_string(src: Seq<u8>, off: int, chars: Seq<char>)
    requires
        !chars.contains('"'),
        src.len() < usize::MAX,
        0 <= off,
        src.subrange(off, off + encode_utf8(seq!['"'] + chars + seq!['"']).len()) == encode_utf8(
            seq!['"'] + chars + seq!['"'],
        ),
        off + encode_utf8(seq!['"'] + chars + seq!['"']).len() <= src.len(),
    ensures
        starts_token(src, off),
        lexeme(src, off).end == off + encode_utf8(seq!['"'] + chars + seq!['"']).len(),
        spells(src, lexeme(src, off).token, ValueView::String(chars)),
{
    let quote = seq!['"'];
    let inner = encode_utf8(chars);
    let part = encode_utf8(quote + chars + quote);
    let close = off + 1 + inner.len();
    lemma_encode_concat(quote + chars, quote);
    lemma_encode_concat(quote, chars);
    lemma_ascii_bytes(quote);
    assert(ascii(quote) =~= seq![QUOTE]);
    assert(part =~= seq![QUOTE] + inner + seq![QUOTE]);
    lemma_ascii_occurs(chars, '"');
    lemma_newlines_bound(src, off);
    assert forall|j: int| 0 <= j < part.len() implies src[off + j] == #[trigger] part[j] by {
        assert(src.subrange(off, off + part.len())[j] == part[j]);
    }
    assert(src[off] == part[0]);
    assert(src[close] == part[close - off]);
    assert forall|j: int| off + 1 <= j < close implies in_run(Run::Quoted, #[trigger] src[j]) by {
        assert(src[j] == part[j - off]);
        assert(part[j - off] == inner[j - off - 1]);
    }
    lemma_run_end_is(src, off + 1, close, Run::Quoted);
    assert(part.len() == inner.len() + 2);
    assert forall|j: int| 0 <= j < inner.len() implies src.subrange(off + 1, close)[j]
        == inner[j] by {
        assert(src[off + 1 + j] == part[1 + j]);
    }
    assert(src.subrange(off + 1, close) =~= inner);
    encode_utf8_decode_utf8(chars);
}

/// A value that is written in a source, with a space or `;` after it, is
/// read as that value.
pub proof fn lemma_written_value(src: Seq<u8>, off: int, value: ValueView)
    requires
        value.readable(),
        src.len() < usize::MAX,
        0 <= off,
        src.subrange(off, off + encode_utf8(value.canonical()).len()) == encode_utf8(
            value.canonical(),
        ),
        stops(src, off + encode_utf8(value.canonical()).len()),
    ensures
        starts_token(src, off),
        lexeme(src, off).end == off + encode_utf8(value.canonical()).len(),
        spells(src, lexeme(src, off).token, value),
{
    match value {
        ValueView::String(chars) => {
            lemma_written_string(src, off, chars);
        },
        ValueView::Integer(n) => {
            lemma_written_integer(src, off, n);
        },
        ValueView::Float(chars) => {
            lemma_written_float(src, off, chars);
        },
        _ => {
            lemma_written_keyword(src, off, value);
        },
    }
}

/// An identifier that is written in a source, with a space, `;` or `=`
/// after it, is read as an identifier with that name.
pub proof fn lemma_written_name(src: Seq<u8>, off: int, name: Seq<char>)
    requires
        is_identifier(encode_utf8(name)),
        src.len() < usize::MAX,
        0 <= off,
        src.subrange(off, off + encode_utf8(name).len()) == encode_utf8(name),
        stops(src, off + encode_utf8(name).len()),
    ensures
        starts_token(src, off),
        lexeme(src, off).end == off + encode_utf8(name).len(),
        lexeme(src, off).token is Identifier,
        forall|toks: Seq<Token>, i: int| #[trigger]
            token_at(toks, i) == lexeme(src, off).token ==> identifier(toks, src, i) == Ok::<
                Seq<char>,
                SyntaxError,
            >(name),
{
    let part = encode_utf8(name);
    lemma_newlines_bound(src, off);
    encode_utf8_decode_utf8(name);
    assert forall|j: int| 0 <= j < part.len() implies src[off + j] == #[trigger] part[j] by {
        assert(src.subrange(off, off + part.len())[j] == part[j]);
    }
    assert(src[off] == part[0]);
    assert forall|j: int| off + 1 <= j < off + part.len() implies in_run(
        Run::Name,
        #[trigger] src[j],
    ) by {
        assert(src[j] == part[j - off]);
    }
    lemma_run_end_is(src, off + 1, off + part.len(), Run::Name);
}

/// Whether the tokens from index `i` on are those that the scanner finds
/// from position `p` on.
pub open spec fn aligned(src: Seq<u8>, toks: Seq<Token>, i: int, p: int) -> bool {
    &&& 0 <= i <= toks.len()
    &&& 0 <= p <= src.len()
    &&& toks.skip(i) == tokens_from(src, p)
}

/// The token at an index is the one that the scanner finds from the
/// position that goes with the index, and the next index goes with the
/// position after that token.
pub proof fn lemma_next_token(src: Seq<u8>, toks: Seq<Token>, i: int, p: int)
    requires
        aligned(src, toks, i, p),
    ensures
        match scan(src, p).token {
            Some(token) => i < toks.len() && token_at(toks, i) == token && aligned(
                src,
                toks,
                i + 1,
                scan(src, p).pos,
            ),
            None => i == toks.len(),
        },
{
    lemma_tokens_unfold(src, p);
    lemma_scan_advances(src, p);
    let rest = toks.skip(i);
    if let Some(token) = scan(src, p).token {
        assert(rest[0] == token);
        assert(toks.skip(i + 1) =~= rest.skip(1));
        assert(rest.skip(1) =~= tokens_from(src, scan(src, p).pos));
    } else {
        assert(rest.len() == 0);
    }
}

} // verus!
