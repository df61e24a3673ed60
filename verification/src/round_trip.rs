//! Writing and reading back: a value, and a tag with its values and
//! attributes, written as `notation` describes, reads back as what was
//! written; and whatever is read from a source can be written so.

use crate::grammar::{
    attribute, attribute_or_literal, body, children, declaration, document, ends_body,
    identifier, item_width, left, literal, read, token_at, Document, TagView, ValueView,
};
use crate::lexis::{
    is_blank, is_digit, is_name_byte, lemma_newlines_bound, lemma_run_end_bounds,
    lemma_run_end_bytes, lemma_run_end_is, lemma_tokens_lexed, lemma_tokens_ok, lexed, lexeme,
    number, run_end, skip_trivia, token_ok, tokens_from, Run, EQUAL, LEFT_BRACE, LOWER_E, MINUS,
    NEWLINE, PLUS, QUOTE, RIGHT_BRACE, SEMICOLON, SPACE, UPPER_E,
};
use crate::notation::{
    all_readable, attribute_items, content_readable, filled, inserted, is_float, is_identifier,
    item_readable, item_text, items_text, lines, lists_attributes, statement, tag_readable,
    tag_statement, tags, value_items, Item, Written,
};
use crate::number::{all_digits, decimal, decimal_text, lemma_decimal_text};
use crate::parser::SyntaxError;
use crate::scanner::Token;
use crate::text::{
    ascii, boundary, lemma_ascii_bytes, lemma_ascii_occurs, lemma_encode_concat,
    lemma_text_between, text,
};
use crate::written::{
    aligned, lemma_next_token, lemma_written_name, lemma_written_value, spells, starts_token,
    stops,
};
use vstd::prelude::*;
use vstd::utf8::{encode_utf8, valid_utf8};

verus! {

/// The bytes of a number with a fraction are such a number by themselves,
/// whatever stands around them in the source.
proof fn lemma_float_alone(src: Seq<u8>, start: int)
    requires
        0 <= start < src.len(),
        is_digit(src[start]),
        number(src, start).token is Float64,
    ensures
        start < number(src, start).end <= src.len(),
        is_float(src.subrange(start, number(src, start).end)),
{
    let end = number(src, start).end;
    let whole = run_end(src, start, Run::Digits);
    lemma_run_end_bounds(src, start, Run::Digits);
    lemma_run_end_bytes(src, start, Run::Digits);
    let fraction = run_end(src, whole + 1, Run::Digits);
    lemma_run_end_bounds(src, whole + 1, Run::Digits);
    lemma_run_end_bytes(src, whole + 1, Run::Digits);
    let exponent = fraction < src.len() && (src[fraction] == LOWER_E || src[fraction] == UPPER_E);
    let signed = fraction + 1 < src.len() && (src[fraction + 1] == PLUS || src[fraction + 1]
        == MINUS);
    let digits = if signed {
        fraction + 2
    } else {
        fraction + 1
    };
    if exponent {
        lemma_run_end_bounds(src, digits, Run::Digits);
        lemma_run_end_bytes(src, digits, Run::Digits);
    }
    let alone = src.subrange(start, end);
    assert forall|j: int| 0 <= j < alone.len() implies alone[j] == src[start + j] by {}
    lemma_run_end_is(alone, 0, whole - start, Run::Digits);
    lemma_run_end_is(alone, whole - start + 1, fraction - start, Run::Digits);
    if exponent {
        lemma_run_end_is(alone, digits - start, end - start, Run::Digits);
    }
}

/// The number that the decimal notation of a number of one or more digits
/// spells is written with no more digits than these.
proof fn lemma_decimal_text_short(digits: Seq<u8>)
    requires
        digits.len() > 0,
        all_digits(digits),
    ensures
        decimal_text(decimal(digits)).len() <= digits.len(),
    decreases digits.len(),
{
    let front = digits.drop_last();
    assert(is_digit(digits[digits.len() - 1]));
    if front.len() > 0 {
        assert forall|i: int| 0 <= i < front.len() implies is_digit(#[trigger] front[i]) by {
            assert(front[i] == digits[i]);
        }
        lemma_decimal_text_short(front);
    } else {
        assert(decimal(front) == 0);
    }
}

/// Every value that is read from a source is one that a literal can have,
/// and the text that spells it is short enough to be a source.
pub proof fn lemma_literal_is_readable(src: Seq<u8>, pos: int, i: int)
    requires
        valid_utf8(src),
        src.len() < usize::MAX,
        boundary(src, pos),
    ensures
        literal(tokens_from(src, pos), src, i) matches Ok(value) ==> value.readable()
            && encode_utf8(value.canonical()).len() < usize::MAX,
{
    let toks = tokens_from(src, pos);
    if let Ok(value) = literal(toks, src, i) {
        let token = token_at(toks, i);
        assert(0 <= i < toks.len());
        lemma_tokens_ok(src, pos);
        lemma_tokens_lexed(src, pos);
        assert(token_ok(src, token));
        assert(lexed(src, token));
        let start = choose|start: int|
            0 <= start < src.len() && #[trigger] lexeme(src, start).token == token;
        lemma_newlines_bound(src, start);
        match token {
            Token::String(first, end, _) => {
                lemma_run_end_bounds(src, start + 1, Run::Quoted);
                lemma_run_end_bytes(src, start + 1, Run::Quoted);
                let inner = src.subrange(first as int, end as int);
                lemma_text_between(src, first as int, end as int);
                let chars = text(src, first as int, end as int);
                lemma_ascii_occurs(chars, '"');
                if inner.contains(QUOTE) {
                    let j = choose|j: int| 0 <= j < inner.len() && inner[j] == QUOTE;
                    assert(src[first + j] == QUOTE);
                }
                lemma_encode_concat(seq!['"'] + chars, seq!['"']);
                lemma_encode_concat(seq!['"'], chars);
                lemma_ascii_bytes(seq!['"']);
            },
            Token::Float64(first, end, _) => {
                lemma_float_alone(src, start);
                lemma_text_between(src, first as int, end as int);
            },
            Token::Integer(first, end, _) => {
                let digits = src.subrange(first as int, end as int);
                lemma_decimal_text_short(digits);
                lemma_decimal_text(decimal(digits));
                lemma_ascii_bytes(decimal_text(decimal(digits)));
            },
            _ => {
                reveal_strlit("true");
                reveal_strlit("false");
                reveal_strlit("null");
                lemma_ascii_bytes(value.canonical());
            },
        }
    }
}

/// Every value that a literal can have reads back as itself: the text that
/// spells it is one token, and that token is a literal with that value.
pub proof fn lemma_literal_round_trip(value: ValueView)
    requires
        value.readable(),
        encode_utf8(value.canonical()).len() < usize::MAX,
    ensures
        ({
            let src = encode_utf8(value.canonical());
            let toks = tokens_from(src, 0);
            toks.len() == 1 && literal(toks, src, 0) == Ok::<ValueView, SyntaxError>(value)
        }),
{
    let src = encode_utf8(value.canonical());
    let toks = tokens_from(src, 0);
    assert(src.subrange(0, src.len() as int) =~= src);
    lemma_written_value(src, 0, value);
    assert(skip_trivia(src, 0) == 0);
    assert(toks.skip(0) =~= toks);
    lemma_next_token(src, toks, 0, 0);
    lemma_next_token(src, toks, 1, src.len() as int);
}

/// The text that spells a value read from a source reads back as that
/// value: it is one token, and that token is a literal with that value.
pub proof fn lemma_read_value_reads_back(src: Seq<u8>, pos: int, i: int)
    requires
        valid_utf8(src),
        src.len() < usize::MAX,
        boundary(src, pos),
    ensures
        literal(tokens_from(src, pos), src, i) matches Ok(value) ==> ({
            let again = encode_utf8(value.canonical());
            let toks = tokens_from(again, 0);
            toks.len() == 1 && literal(toks, again, 0) == Ok::<ValueView, SyntaxError>(value)
        }),
{
    if let Ok(value) = literal(tokens_from(src, pos), src, i) {
        lemma_literal_is_readable(src, pos, i);
        lemma_literal_round_trip(value);
    }
}

/// The number of tokens that `items` are written with.
spec fn width(items: Seq<Item>) -> int
    decreases items.len(),
{
    if items.len() == 0 {
        0
    } else {
        (if items[0].0 is Some {
            3int
        } else {
            1int
        }) + width(items.drop_first())
    }
}

/// A part of the source that holds one text after another holds the first
/// and then the second.
proof fn lemma_parts(src: Seq<u8>, q: int, first: Seq<u8>, second: Seq<u8>)
    requires
        0 <= q,
        q + first.len() + second.len() <= src.len(),
        src.subrange(q, q + first.len() + second.len()) == first + second,
    ensures
        src.subrange(q, q + first.len()) == first,
        src.subrange(q + first.len(), q + first.len() + second.len()) == second,
{
    let both = first + second;
    assert forall|j: int| 0 <= j < both.len() implies src[q + j] == #[trigger] both[j] by {
        assert(src.subrange(q, q + first.len() + second.len())[j] == both[j]);
    }
    assert forall|j: int| 0 <= j < first.len() implies src.subrange(q, q + first.len())[j]
        == first[j] by {
        assert(both[j] == first[j]);
    }
    assert(src.subrange(q, q + first.len()) =~= first);
    assert forall|j: int| 0 <= j < second.len() implies src.subrange(
        q + first.len(),
        q + first.len() + second.len(),
    )[j] == second[j] by {
        assert(both[first.len() + j] == second[j]);
        assert(src[q + (first.len() + j)] == both[first.len() + j]);
    }
    assert(src.subrange(q + first.len(), q + first.len() + second.len()) =~= second);
}

/// Whether the values and attributes of a tag end at position `q`: a `;`
/// stands there, or a space and `{`.
spec fn closes(src: Seq<u8>, q: int) -> bool {
    &&& 0 <= q < src.len()
    &&& src[q] == SEMICOLON || (src[q] == SPACE && q + 1 < src.len() && src[q + 1] == LEFT_BRACE)
}

/// What is written for one item or more starts with a space.
proof fn lemma_items_text_starts(items: Seq<Item>)
    requires
        items.len() > 0,
    ensures
        encode_utf8(items_text(items)).len() > 0,
        encode_utf8(items_text(items))[0] == SPACE,
{
    let rest = item_text(items[0]) + items_text(items.drop_first());
    assert(items_text(items) =~= seq![' '] + rest);
    lemma_encode_concat(seq![' '], rest);
    lemma_ascii_bytes(seq![' ']);
    assert(ascii(seq![' ']) =~= seq![SPACE]);
}

/// A tag that is filled with one item or more is not bare.
proof fn lemma_filled_not_bare(tag: TagView, items: Seq<Item>)
    requires
        !tag.is_bare() || items.len() > 0,
    ensures
        !filled(tag, items).is_bare(),
    decreases items.len(),
{
    if items.len() > 0 {
        match items[0].0 {
            Some(name) => {
                let next = tag.with_attribute(name, items[0].1);
                assert(next.attributes.contains_key(name));
                lemma_filled_not_bare(next, items.drop_first());
            },
            None => {
                let next = tag.with_value(items[0].1);
                lemma_filled_not_bare(next, items.drop_first());
            },
        }
    }
}

/// Where the items that are written from position `p` on lie: a space at
/// `p`, the first item after it, and after that item the rest.
proof fn lemma_items_layout(src: Seq<u8>, p: int, items: Seq<Item>)
    requires
        0 <= p,
        items.len() > 0,
        src.subrange(p, p + encode_utf8(items_text(items)).len()) == encode_utf8(
            items_text(items),
        ),
        closes(src, p + encode_utf8(items_text(items)).len()),
    ensures
        ({
            let after = p + 1 + encode_utf8(item_text(items[0])).len();
            let end = p + encode_utf8(items_text(items)).len();
            &&& src[p] == SPACE
            &&& after <= end
            &&& end == after + encode_utf8(items_text(items.drop_first())).len()
            &&& src.subrange(p + 1, after) == encode_utf8(item_text(items[0]))
            &&& src.subrange(after, end) == encode_utf8(items_text(items.drop_first()))
            &&& stops(src, after)
        }),
{
    let written = encode_utf8(items_text(items));
    let rest = items.drop_first();
    let this = encode_utf8(item_text(items[0]));
    let tail = encode_utf8(items_text(rest));
    let after = p + 1 + this.len();
    assert(items_text(items) =~= seq![' '] + (item_text(items[0]) + items_text(rest)));
    lemma_encode_concat(seq![' '], item_text(items[0]) + items_text(rest));
    lemma_encode_concat(item_text(items[0]), items_text(rest));
    lemma_ascii_bytes(seq![' ']);
    assert(ascii(seq![' ']) =~= seq![SPACE]);
    assert(written =~= seq![SPACE] + (this + tail));
    lemma_parts(src, p, seq![SPACE], this + tail);
    lemma_parts(src, p + 1, this, tail);
    assert(src.subrange(p, p + 1)[0] == SPACE);
    if rest.len() > 0 {
        lemma_items_text_starts(rest);
        assert(src.subrange(after, after + tail.len())[0] == tail[0]);
    }
}

/// A value that is written after a space is read as a bare value.
proof fn lemma_value_step(src: Seq<u8>, toks: Seq<Token>, i: int, p: int, value: ValueView)
    requires
        src.len() < usize::MAX,
        aligned(src, toks, i, p),
        value.readable(),
        p < src.len(),
        src[p] == SPACE,
        src.subrange(p + 1, p + 1 + encode_utf8(value.canonical()).len()) == encode_utf8(
            value.canonical(),
        ),
        stops(src, p + 1 + encode_utf8(value.canonical()).len()),
    ensures
        !ends_body(toks, i),
        item_width(toks, i) == 1,
        attribute_or_literal(toks, src, i) == Ok::<(Option<Seq<char>>, ValueView), SyntaxError>(
            (None, value),
        ),
        aligned(src, toks, i + 1, p + 1 + encode_utf8(value.canonical()).len()),
{
    let start = p + 1;
    lemma_written_value(src, start, value);
    assert(skip_trivia(src, start) == start);
    assert(skip_trivia(src, p) == start);
    lemma_next_token(src, toks, i, p);
    assert(literal(toks, src, i) == Ok::<ValueView, SyntaxError>(value));
}

/// An identifier, `=` and a literal that the scanner finds one after the
/// other are read as an attribute.
proof fn lemma_attribute_tokens(
    src: Seq<u8>,
    toks: Seq<Token>,
    i: int,
    p: int,
    equal: int,
    after: int,
    name: Seq<char>,
    value: ValueView,
)
    requires
        src.len() < usize::MAX,
        aligned(src, toks, i, p),
        p + 1 < equal < after <= src.len(),
        src[p] == SPACE,
        src[equal] == EQUAL,
        starts_token(src, p + 1),
        lexeme(src, p + 1).end == equal,
        lexeme(src, p + 1).token is Identifier,
        forall|toks: Seq<Token>, i: int| #[trigger]
            token_at(toks, i) == lexeme(src, p + 1).token ==> identifier(toks, src, i) == Ok::<
                Seq<char>,
                SyntaxError,
            >(name),
        starts_token(src, equal + 1),
        lexeme(src, equal + 1).end == after,
        spells(src, lexeme(src, equal + 1).token, value),
    ensures
        !ends_body(toks, i),
        item_width(toks, i) == 3,
        attribute_or_literal(toks, src, i) == Ok::<(Option<Seq<char>>, ValueView), SyntaxError>(
            (Some(name), value),
        ),
        aligned(src, toks, i + 3, after),
{
    assert(skip_trivia(src, p + 1) == p + 1);
    assert(skip_trivia(src, p) == p + 1);
    assert(skip_trivia(src, equal) == equal);
    assert(skip_trivia(src, equal + 1) == equal + 1);
    lemma_next_token(src, toks, i, p);
    lemma_next_token(src, toks, i + 1, equal);
    lemma_next_token(src, toks, i + 2, equal + 1);
    assert(token_at(toks, i) is Identifier);
    assert(token_at(toks, i + 1) is Equal);
    assert(identifier(toks, src, i) == Ok::<Seq<char>, SyntaxError>(name));
    assert(literal(toks, src, i + 2) == Ok::<ValueView, SyntaxError>(value));
    assert(attribute(toks, src, i) == Ok::<(Seq<char>, ValueView), SyntaxError>((name, value)));
}

/// An attribute that is written after a space is read as an attribute.
proof fn lemma_attribute_step(
    src: Seq<u8>,
    toks: Seq<Token>,
    i: int,
    p: int,
    name: Seq<char>,
    value: ValueView,
)
    requires
        src.len() < usize::MAX,
        aligned(src, toks, i, p),
        is_identifier(encode_utf8(name)),
        value.readable(),
        p < src.len(),
        src[p] == SPACE,
        src.subrange(
            p + 1,
            p + 1 + encode_utf8(name + seq!['='] + value.canonical()).len(),
        ) == encode_utf8(name + seq!['='] + value.canonical()),
        stops(src, p + 1 + encode_utf8(name + seq!['='] + value.canonical()).len()),
    ensures
        !ends_body(toks, i),
        item_width(toks, i) == 3,
        attribute_or_literal(toks, src, i) == Ok::<(Option<Seq<char>>, ValueView), SyntaxError>(
            (Some(name), value),
        ),
        aligned(
            src,
            toks,
            i + 3,
            p + 1 + encode_utf8(name + seq!['='] + value.canonical()).len(),
        ),
{
    let this = encode_utf8(name + seq!['='] + value.canonical());
    let spelled = encode_utf8(name);
    let written = encode_utf8(value.canonical());
    let start = p + 1;
    let equal = start + spelled.len();
    let after = start + this.len();
    assert(name + seq!['='] + value.canonical() =~= name + (seq!['='] + value.canonical()));
    lemma_encode_concat(name, seq!['='] + value.canonical());
    lemma_encode_concat(seq!['='], value.canonical());
    lemma_ascii_bytes(seq!['=']);
    assert(ascii(seq!['=']) =~= seq![EQUAL]);
    assert(this =~= spelled + seq![EQUAL] + written);
    assert forall|j: int| 0 <= j < this.len() implies src[start + j] == #[trigger] this[j] by {
        assert(src.subrange(start, after)[j] == this[j]);
    }
    assert(src[start + spelled.len()] == this[spelled.len() as int]);
    assert(src.subrange(start, equal) =~= spelled);
    assert forall|j: int| 0 <= j < written.len() implies src.subrange(equal + 1, after)[j]
        == written[j] by {
        assert(src[start + (spelled.len() + 1 + j)] == this[spelled.len() + 1 + j]);
    }
    assert(src.subrange(equal + 1, after) =~= written);
    lemma_written_name(src, start, name);
    lemma_written_value(src, equal + 1, value);
    lemma_attribute_tokens(src, toks, i, p, equal, after, name, value);
}

/// Where the values and attributes of a tag end, the token that ends them
/// comes next.
proof fn lemma_end_step(src: Seq<u8>, toks: Seq<Token>, i: int, p: int)
    requires
        src.len() < usize::MAX,
        aligned(src, toks, i, p),
        closes(src, p),
    ensures
        src[p] == SEMICOLON ==> token_at(toks, i) is Semicolon && aligned(src, toks, i + 1, p + 1),
        src[p] != SEMICOLON ==> token_at(toks, i) is LeftBrace && aligned(
            src,
            toks,
            i + 1,
            p + 2,
        ),
{
    lemma_newlines_bound(src, p);
    lemma_newlines_bound(src, p + 1);
    if src[p] == SEMICOLON {
        assert(skip_trivia(src, p) == p);
    } else {
        assert(skip_trivia(src, p + 1) == p + 1);
        assert(skip_trivia(src, p) == p + 1);
    }
    lemma_next_token(src, toks, i, p);
}

/// The items that are written from position `p` on are read as the values
/// and attributes that they are, up to the token that ends them.
proof fn lemma_items_read_back(
    src: Seq<u8>,
    toks: Seq<Token>,
    i: int,
    p: int,
    items: Seq<Item>,
    tag: TagView,
)
    requires
        src.len() < usize::MAX,
        aligned(src, toks, i, p),
        src.subrange(p, p + encode_utf8(items_text(items)).len()) == encode_utf8(
            items_text(items),
        ),
        closes(src, p + encode_utf8(items_text(items)).len()),
        forall|k: int| 0 <= k < items.len() ==> item_readable(#[trigger] items[k]),
    ensures
        body(toks, src, i, tag) == Ok::<(TagView, int), SyntaxError>(
            (filled(tag, items), i + width(items)),
        ),
        aligned(src, toks, i + width(items), p + encode_utf8(items_text(items)).len()),
        width(items) >= 0,
    decreases items.len(),
{
    if items.len() == 0 {
        lemma_end_step(src, toks, i, p);
    } else {
        let item = items[0];
        let rest = items.drop_first();
        let after = p + 1 + encode_utf8(item_text(item)).len();
        assert(item_readable(item));
        assert forall|k: int| 0 <= k < rest.len() implies item_readable(#[trigger] rest[k]) by {
            assert(rest[k] == items[k + 1]);
        }
        lemma_items_layout(src, p, items);
        match item.0 {
            None => {
                lemma_value_step(src, toks, i, p, item.1);
                lemma_items_read_back(src, toks, i + 1, after, rest, tag.with_value(item.1));
            },
            Some(name) => {
                lemma_attribute_step(src, toks, i, p, name, item.1);
                lemma_items_read_back(
                    src,
                    toks,
                    i + 3,
                    after,
                    rest,
                    tag.with_attribute(name, item.1),
                );
            },
        }
    }
}

/// A statement reads back as the tag that it declares: where a name is
/// written, then one value or attribute or more with a space before each,
/// and then `;`, reading gives one tag with that name and with those values
/// and attributes, and no error.
pub proof fn lemma_statement_round_trip(name: Seq<char>, items: Seq<Item>)
    requires
        is_identifier(encode_utf8(name)),
        items.len() > 0,
        forall|k: int| 0 <= k < items.len() ==> item_readable(#[trigger] items[k]),
        encode_utf8(statement(name, items)).len() < usize::MAX,
    ensures
        read(encode_utf8(statement(name, items))) == (Document {
            tags: seq![filled(TagView::named(name), items)],
            error: None,
        }),
{
    let src = encode_utf8(statement(name, items));
    let toks = tokens_from(src, 0);
    let spelled = encode_utf8(name);
    let middle = encode_utf8(items_text(items));
    let tag = filled(TagView::named(name), items);
    let end = 1 + width(items);
    let first = spelled.len() as int;
    let last = first + middle.len();
    lemma_encode_concat(name + items_text(items), seq![';']);
    lemma_encode_concat(name, items_text(items));
    lemma_ascii_bytes(seq![';']);
    assert(ascii(seq![';']) =~= seq![SEMICOLON]);
    assert(src =~= spelled + (middle + seq![SEMICOLON]));
    assert(src.subrange(0, src.len() as int) =~= src);
    lemma_parts(src, 0, spelled, middle + seq![SEMICOLON]);
    lemma_parts(src, first, middle, seq![SEMICOLON]);
    lemma_items_text_starts(items);
    assert(src.subrange(first, last)[0] == middle[0]);
    assert(src.subrange(last, last + 1)[0] == SEMICOLON);
    lemma_written_name(src, 0, name);
    assert(skip_trivia(src, 0) == 0);
    assert(toks.skip(0) =~= toks);
    lemma_next_token(src, toks, 0, 0);
    lemma_items_read_back(src, toks, 1, first, items, TagView::named(name));
    lemma_end_step(src, toks, end, last);
    lemma_next_token(src, toks, end + 1, src.len() as int);
    lemma_filled_not_bare(TagView::named(name), items);
    assert(identifier(toks, src, 0) == Ok::<Seq<char>, SyntaxError>(name));
    assert(declaration(toks, src, 0) == Ok::<(TagView, nat), SyntaxError>((tag, end as nat)));
    assert(token_at(toks, end + 1) is Eof);
    assert(document(toks, src, end + 1, seq![tag]) == (Document {
        tags: seq![tag],
        error: None,
    }));
    assert(Seq::<TagView>::empty().push(tag) =~= seq![tag]);
}

/// Whether nothing but blanks stands from position `p` up to position `q`.
spec fn blank_between(src: Seq<u8>, p: int, q: int) -> bool {
    &&& 0 <= p <= q <= src.len()
    &&& forall|j: int| p <= j < q ==> is_blank(#[trigger] src[j])
}

/// The scanner goes over blanks to the token that starts after them, or to
/// the end of the source.
proof fn lemma_skip_blanks(src: Seq<u8>, p: int, q: int)
    requires
        blank_between(src, p, q),
        q == src.len() || starts_token(src, q),
    ensures
        skip_trivia(src, p) == q,
    decreases q - p,
{
    if p < q {
        assert(is_blank(src[p]));
        lemma_skip_blanks(src, p + 1, q);
    }
}

/// The bytes that declare a written tag: those of its name, those of its
/// values and attributes, and those that close it.
proof fn lemma_text_bytes(written: Written)
    ensures
        encode_utf8(written.text()) == encode_utf8(written.name) + encode_utf8(
            items_text(written.items),
        ) + match written.block {
            Some(inner) => seq![SPACE, LEFT_BRACE, NEWLINE] + encode_utf8(lines(inner))
                + seq![RIGHT_BRACE],
            None => seq![SEMICOLON],
        },
{
    let head = written.name + items_text(written.items);
    lemma_encode_concat(written.name, items_text(written.items));
    match written.block {
        Some(inner) => {
            let open = seq![' ', '{', '\n'];
            let close = seq!['}'];
            assert(written.text() =~= head + ((open + lines(inner)) + close));
            lemma_encode_concat(head, (open + lines(inner)) + close);
            lemma_encode_concat(open + lines(inner), close);
            lemma_encode_concat(open, lines(inner));
            lemma_ascii_bytes(open);
            lemma_ascii_bytes(close);
            assert(ascii(open) =~= seq![SPACE, LEFT_BRACE, NEWLINE]);
            assert(ascii(close) =~= seq![RIGHT_BRACE]);
        },
        None => {
            lemma_encode_concat(head, seq![';']);
            lemma_ascii_bytes(seq![';']);
            assert(ascii(seq![';']) =~= seq![SEMICOLON]);
        },
    }
}

/// The bytes of the lines of one written tag or more: those of the first
/// tag, a newline, and those of the other lines.
proof fn lemma_lines_bytes(all: Seq<Written>)
    requires
        all.len() > 0,
    ensures
        encode_utf8(lines(all)) == encode_utf8(all[0].text()) + seq![NEWLINE] + encode_utf8(
            lines(all.drop_first()),
        ),
{
    let rest = lines(all.drop_first());
    assert(lines(all) =~= all[0].text() + (seq!['\n'] + rest));
    lemma_encode_concat(all[0].text(), seq!['\n'] + rest);
    lemma_encode_concat(seq!['\n'], rest);
    lemma_ascii_bytes(seq!['\n']);
    assert(ascii(seq!['\n']) =~= seq![NEWLINE]);
}

/// Where the parts of a tag that is written at position `q` lie: its name,
/// after it its values and attributes, after them what ends them, and in a
/// block a newline, the lines of the block and `}`.
proof fn lemma_declaration_layout(src: Seq<u8>, q: int, written: Written)
    requires
        0 <= q,
        written.readable(),
        q + encode_utf8(written.text()).len() <= src.len(),
        src.subrange(q, q + encode_utf8(written.text()).len()) == encode_utf8(written.text()),
    ensures
        ({
            let first = q + encode_utf8(written.name).len();
            let last = first + encode_utf8(items_text(written.items)).len();
            let end = q + encode_utf8(written.text()).len();
            &&& src.subrange(q, first) == encode_utf8(written.name)
            &&& src.subrange(first, last) == encode_utf8(items_text(written.items))
            &&& stops(src, first)
            &&& closes(src, last)
            &&& match written.block {
                None => src[last] == SEMICOLON && end == last + 1,
                Some(inner) => {
                    &&& src[last] == SPACE
                    &&& src[last + 2] == NEWLINE
                    &&& end == last + 4 + encode_utf8(lines(inner)).len()
                    &&& src.subrange(last + 3, end - 1) == encode_utf8(lines(inner))
                    &&& src[end - 1] == RIGHT_BRACE
                },
            }
        }),
{
    let name = encode_utf8(written.name);
    let middle = encode_utf8(items_text(written.items));
    let close = match written.block {
        Some(inner) => seq![SPACE, LEFT_BRACE, NEWLINE] + encode_utf8(lines(inner))
            + seq![RIGHT_BRACE],
        None => seq![SEMICOLON],
    };
    let first = q + name.len();
    let last = first + middle.len();
    lemma_text_bytes(written);
    assert(encode_utf8(written.text()) =~= name + (middle + close));
    lemma_parts(src, q, name, middle + close);
    lemma_parts(src, first, middle, close);
    assert forall|j: int| 0 <= j < close.len() implies src[last + j] == #[trigger] close[j] by {
        assert(src.subrange(last, last + close.len())[j] == close[j]);
    }
    assert(src[last] == close[0]);
    if written.items.len() > 0 {
        lemma_items_text_starts(written.items);
        assert(src.subrange(first, last)[0] == middle[0]);
    }
    if let Some(inner) = written.block {
        let inside = encode_utf8(lines(inner));
        assert(src[last + 1] == close[1]);
        assert(src[last + 2] == close[2]);
        assert(close =~= seq![SPACE, LEFT_BRACE, NEWLINE] + (inside + seq![RIGHT_BRACE]));
        lemma_parts(src, last, seq![SPACE, LEFT_BRACE, NEWLINE], inside + seq![RIGHT_BRACE]);
        lemma_parts(src, last + 3, inside, seq![RIGHT_BRACE]);
        assert(src[last + (3 + inside.len())] == close[3 + inside.len() as int]);
    }
}

/// A tag that is written in a source is read as that tag: the declaration
/// that starts after the blanks from position `p` up to position `q` is
/// what is written at `q`.
proof fn lemma_declaration_read_back(
    src: Seq<u8>,
    toks: Seq<Token>,
    i: int,
    p: int,
    q: int,
    written: Written,
)
    requires
        src.len() < usize::MAX,
        aligned(src, toks, i, p),
        blank_between(src, p, q),
        written.readable(),
        q + encode_utf8(written.text()).len() <= src.len(),
        src.subrange(q, q + encode_utf8(written.text()).len()) == encode_utf8(written.text()),
    ensures
        declaration(toks, src, i) matches Ok((tag, more)) && tag == written.tag() && aligned(
            src,
            toks,
            i + 1 + more,
            q + encode_utf8(written.text()).len(),
        ),
    decreases written, 0int,
{
    let first = q + encode_utf8(written.name).len();
    let last = first + encode_utf8(items_text(written.items)).len();
    let bare = TagView::named(written.name);
    let token = i + 1 + width(written.items);
    lemma_declaration_layout(src, q, written);
    lemma_written_name(src, q, written.name);
    lemma_skip_blanks(src, p, q);
    lemma_next_token(src, toks, i, p);
    assert(identifier(toks, src, i) == Ok::<Seq<char>, SyntaxError>(written.name));
    lemma_items_read_back(src, toks, i + 1, first, written.items, bare);
    lemma_end_step(src, toks, token, last);
    match written.block {
        None => {
            lemma_filled_not_bare(bare, written.items);
        },
        Some(inner) => {
            assert(is_blank(src[last + 2]));
            lemma_block_read_back(src, toks, token + 1, last + 2, last + 3, inner, Seq::empty());
            assert(Seq::<TagView>::empty() + tags(inner) =~= tags(inner));
        },
    }
}

/// The tags that are written in a block are read as its children: the
/// declarations after the blanks from position `p` up to position `q`, and
/// the `}` after them, are what is written at `q`.
proof fn lemma_block_read_back(
    src: Seq<u8>,
    toks: Seq<Token>,
    i: int,
    p: int,
    q: int,
    all: Seq<Written>,
    found: Seq<TagView>,
)
    requires
        src.len() < usize::MAX,
        aligned(src, toks, i, p),
        blank_between(src, p, q),
        all_readable(all),
        q + encode_utf8(lines(all)).len() < src.len(),
        src.subrange(q, q + encode_utf8(lines(all)).len()) == encode_utf8(lines(all)),
        src[q + encode_utf8(lines(all)).len()] == RIGHT_BRACE,
    ensures
        children(toks, src, i, found) matches Ok((got, more)) && got == found + tags(all)
            && aligned(src, toks, i + more, q + encode_utf8(lines(all)).len() + 1),
    decreases all, 1int,
{
    if all.len() == 0 {
        lemma_newlines_bound(src, q);
        lemma_skip_blanks(src, p, q);
        lemma_next_token(src, toks, i, p);
        assert(found + tags(all) =~= found);
    } else {
        let this = encode_utf8(all[0].text());
        let rest = all.drop_first();
        let others = encode_utf8(lines(rest));
        let after = q + this.len();
        lemma_lines_bytes(all);
        assert(encode_utf8(lines(all)) =~= this + (seq![NEWLINE] + others));
        lemma_parts(src, q, this, seq![NEWLINE] + others);
        lemma_parts(src, after, seq![NEWLINE], others);
        assert(src.subrange(after, after + 1)[0] == NEWLINE);
        lemma_declaration_read_back(src, toks, i, p, q, all[0]);
        let more = declaration(toks, src, i)->Ok_0.1;
        lemma_block_read_back(src, toks, i + 1 + more, after, after + 1, rest, found.push(
            all[0].tag(),
        ));
        assert(found.push(all[0].tag()) + tags(rest) =~= found + tags(all));
    }
}

/// The tags that are written up to the end of a source are read as they
/// are written, and no error is found.
proof fn lemma_lines_read_back(
    src: Seq<u8>,
    toks: Seq<Token>,
    i: int,
    p: int,
    q: int,
    all: Seq<Written>,
    found: Seq<TagView>,
)
    requires
        src.len() < usize::MAX,
        aligned(src, toks, i, p),
        blank_between(src, p, q),
        all_readable(all),
        q + encode_utf8(lines(all)).len() == src.len(),
        src.subrange(q, src.len() as int) == encode_utf8(lines(all)),
    ensures
        document(toks, src, i, found) == (Document { tags: found + tags(all), error: None }),
    decreases all.len(),
{
    if all.len() == 0 {
        lemma_skip_blanks(src, p, q);
        lemma_next_token(src, toks, i, p);
        assert(found + tags(all) =~= found);
    } else {
        let this = encode_utf8(all[0].text());
        let rest = all.drop_first();
        let others = encode_utf8(lines(rest));
        let after = q + this.len();
        lemma_lines_bytes(all);
        assert(encode_utf8(lines(all)) =~= this + (seq![NEWLINE] + others));
        lemma_parts(src, q, this, seq![NEWLINE] + others);
        lemma_parts(src, after, seq![NEWLINE], others);
        assert(src.subrange(after, after + 1)[0] == NEWLINE);
        lemma_declaration_read_back(src, toks, i, p, q, all[0]);
        let more = declaration(toks, src, i)->Ok_0.1;
        lemma_lines_read_back(src, toks, i + 1 + more, after, after + 1, rest, found.push(
            all[0].tag(),
        ));
        assert(found.push(all[0].tag()) + tags(rest) =~= found + tags(all));
    }
}

/// Whatever is written reads back as what was written: where tags with
/// their values, their attributes and their blocks are written one after
/// the other, reading gives those tags, and no error.
pub proof fn lemma_document_round_trip(all: Seq<Written>)
    requires
        all_readable(all),
        encode_utf8(lines(all)).len() < usize::MAX,
    ensures
        read(encode_utf8(lines(all))) == (Document { tags: tags(all), error: None }),
{
    let src = encode_utf8(lines(all));
    let toks = tokens_from(src, 0);
    assert(toks.skip(0) =~= toks);
    assert(src.subrange(0, src.len() as int) =~= src);
    lemma_lines_read_back(src, toks, 0, 0, 0, all, Seq::empty());
    assert(Seq::<TagView>::empty() + tags(all) =~= tags(all));
}

/// Filling a tag with items and then with more items is filling it with
/// all of them.
proof fn lemma_filled_concat(tag: TagView, first: Seq<Item>, second: Seq<Item>)
    ensures
        filled(tag, first + second) == filled(filled(tag, first), second),
    decreases first.len(),
{
    if first.len() == 0 {
        assert(first + second =~= second);
    } else {
        let next = match first[0].0 {
            Some(name) => tag.with_attribute(name, first[0].1),
            None => tag.with_value(first[0].1),
        };
        assert((first + second)[0] == first[0]);
        assert((first + second).drop_first() =~= first.drop_first() + second);
        lemma_filled_concat(next, first.drop_first(), second);
    }
}

/// Filling a tag with values adds them to its values.
proof fn lemma_filled_values(tag: TagView, values: Seq<ValueView>)
    ensures
        filled(tag, value_items(values)) == (TagView { values: tag.values + values, ..tag }),
    decreases values.len(),
{
    let items = value_items(values);
    if values.len() == 0 {
        assert(tag.values + values =~= tag.values);
    } else {
        let next = tag.with_value(values[0]);
        assert(items[0] == (None::<Seq<char>>, values[0]));
        assert(items.drop_first() =~= value_items(values.drop_first()));
        lemma_filled_values(next, values.drop_first());
        assert(next.values + values.drop_first() =~= tag.values + values);
    }
}

/// Filling a tag with attributes sets them in their order.
proof fn lemma_filled_attributes(tag: TagView, pairs: Seq<(Seq<char>, ValueView)>)
    ensures
        filled(tag, attribute_items(pairs)) == (TagView {
            attributes: inserted(tag.attributes, pairs),
            ..tag
        }),
    decreases pairs.len(),
{
    let items = attribute_items(pairs);
    if pairs.len() > 0 {
        let next = tag.with_attribute(pairs[0].0, pairs[0].1);
        assert(items[0] == (Some(pairs[0].0), pairs[0].1));
        assert(items.drop_first() =~= attribute_items(pairs.drop_first()));
        lemma_filled_attributes(next, pairs.drop_first());
    }
}

/// The name of the pair at index `k`.
spec fn name_of(pairs: Seq<(Seq<char>, ValueView)>, k: int) -> Seq<char> {
    pairs[k].0
}

/// An attribute that is not set again keeps its value.
proof fn lemma_inserted_keeps(
    attributes: Map<Seq<char>, ValueView>,
    pairs: Seq<(Seq<char>, ValueView)>,
    name: Seq<char>,
)
    requires
        attributes.contains_key(name),
        forall|k: int| 0 <= k < pairs.len() ==> #[trigger] name_of(pairs, k) != name,
    ensures
        inserted(attributes, pairs).contains_key(name),
        inserted(attributes, pairs)[name] == attributes[name],
    decreases pairs.len(),
{
    if pairs.len() > 0 {
        let rest = pairs.drop_first();
        let next = attributes.insert(pairs[0].0, pairs[0].1);
        assert(name_of(pairs, 0) != name);
        assert forall|k: int| 0 <= k < rest.len() implies #[trigger] name_of(rest, k) != name by {
            assert(name_of(pairs, k + 1) != name);
        }
        lemma_inserted_keeps(next, rest, name);
    }
}

/// Of attributes that are set one after the other, each of them once, each
/// is there afterwards with its value.
proof fn lemma_inserted_has(
    attributes: Map<Seq<char>, ValueView>,
    pairs: Seq<(Seq<char>, ValueView)>,
    k: int,
)
    requires
        0 <= k < pairs.len(),
        forall|i: int, j: int| 0 <= i < j < pairs.len() ==> pairs[i].0 != pairs[j].0,
    ensures
        inserted(attributes, pairs).contains_key(pairs[k].0),
        inserted(attributes, pairs)[pairs[k].0] == pairs[k].1,
    decreases pairs.len(),
{
    let rest = pairs.drop_first();
    let next = attributes.insert(pairs[0].0, pairs[0].1);
    assert forall|i: int, j: int| 0 <= i < j < rest.len() implies rest[i].0 != rest[j].0 by {
        assert(pairs[i + 1].0 != pairs[j + 1].0);
    }
    if k == 0 {
        assert forall|j: int| 0 <= j < rest.len() implies #[trigger] name_of(rest, j)
            != pairs[0].0 by {
            assert(pairs[0].0 != pairs[j + 1].0);
        }
        lemma_inserted_keeps(next, rest, pairs[0].0);
    } else {
        lemma_inserted_has(next, rest, k - 1);
    }
}

/// A tag whose name, values and attributes can be written reads back as
/// itself: where its name is written, then its values in their order with a
/// space before each, then its attributes, each of them once, as a name,
/// `=` and the value with a space before each, and then `;`, reading gives
/// that one tag without children, and no error.
pub proof fn lemma_tag_round_trip(tag: TagView, pairs: Seq<(Seq<char>, ValueView)>)
    requires
        tag_readable(tag),
        !tag.is_bare(),
        lists_attributes(tag, pairs),
        encode_utf8(tag_statement(tag, pairs)).len() < usize::MAX,
    ensures
        read(encode_utf8(tag_statement(tag, pairs))) == (Document {
            tags: seq![TagView { children: Seq::empty(), ..tag }],
            error: None,
        }),
{
    let values = value_items(tag.values);
    let attributes = attribute_items(pairs);
    let items = values + attributes;
    let bare = TagView::named(tag.name);
    assert forall|k: int| 0 <= k < items.len() implies item_readable(#[trigger] items[k]) by {
        if k < values.len() {
            assert(items[k] == (None::<Seq<char>>, tag.values[k]));
        } else {
            let pair = pairs[k - values.len()];
            assert(items[k] == (Some(pair.0), pair.1));
            lemma_inserted_has(Map::empty(), pairs, k - values.len());
            assert(tag.attributes.contains_key(pair.0));
        }
    }
    if pairs.len() == 0 {
        assert(tag.values.len() > 0);
    }
    lemma_statement_round_trip(tag.name, items);
    lemma_filled_concat(bare, values, attributes);
    lemma_filled_values(bare, tag.values);
    lemma_filled_attributes(filled(bare, values), pairs);
    assert(bare.values + tag.values =~= tag.values);
}

/// The name that an identifier of a source spells is an identifier.
proof fn lemma_identifier_read(src: Seq<u8>, pos: int, i: int)
    requires
        valid_utf8(src),
        src.len() < usize::MAX,
        boundary(src, pos),
    ensures
        identifier(tokens_from(src, pos), src, i) matches Ok(name) ==> is_identifier(
            encode_utf8(name),
        ),
{
    let toks = tokens_from(src, pos);
    if let Ok(name) = identifier(toks, src, i) {
        let token = token_at(toks, i);
        assert(0 <= i < toks.len());
        lemma_tokens_ok(src, pos);
        lemma_tokens_lexed(src, pos);
        assert(token_ok(src, token));
        assert(lexed(src, token));
        let start = choose|start: int|
            0 <= start < src.len() && #[trigger] lexeme(src, start).token == token;
        let (first, last, _) = token.span();
        lemma_newlines_bound(src, start);
        lemma_run_end_bounds(src, start + 1, Run::Name);
        lemma_run_end_bytes(src, start + 1, Run::Name);
        lemma_text_between(src, first as int, last as int);
        let bytes = src.subrange(first as int, last as int);
        assert(bytes[0] == src[start]);
        assert forall|j: int| 0 < j < bytes.len() implies is_name_byte(#[trigger] bytes[j]) by {
            assert(bytes[j] == src[start + j]);
        }
    }
}

/// The values and attributes that are read from a source can be written
/// and read again.
proof fn lemma_body_readable(src: Seq<u8>, pos: int, i: int, tag: TagView)
    requires
        valid_utf8(src),
        src.len() < usize::MAX,
        boundary(src, pos),
        content_readable(tag),
    ensures
        body(tokens_from(src, pos), src, i, tag) matches Ok((full, _)) ==> content_readable(full)
            && full.name == tag.name,
    decreases left(tokens_from(src, pos), i),
{
    let toks = tokens_from(src, pos);
    if !ends_body(toks, i) {
        match attribute_or_literal(toks, src, i) {
            Err(error) => {},
            Ok((Some(name), value)) => {
                lemma_identifier_read(src, pos, i);
                lemma_literal_is_readable(src, pos, i + 2);
                let next = tag.with_attribute(name, value);
                assert forall|other: Seq<char>| #[trigger]
                    next.attributes.contains_key(other) implies is_identifier(
                    encode_utf8(other),
                ) && next.attributes[other].readable() by {
                    if other != name {
                        assert(tag.attributes.contains_key(other));
                    }
                }
                lemma_body_readable(src, pos, i + item_width(toks, i), next);
            },
            Ok((None, value)) => {
                lemma_literal_is_readable(src, pos, i);
                let next = tag.with_value(value);
                assert forall|k: int| 0 <= k < next.values.len() implies (
                #[trigger] next.values[k]).readable() by {
                    if k < tag.values.len() {
                        assert(next.values[k] == tag.values[k]);
                    }
                }
                lemma_body_readable(src, pos, i + item_width(toks, i), next);
            },
        }
    }
}

/// The name, the values and the attributes of every tag that is declared
/// in a source can be written and read again.
pub proof fn lemma_declared_tag_readable(src: Seq<u8>, pos: int, i: int)
    requires
        valid_utf8(src),
        src.len() < usize::MAX,
        boundary(src, pos),
    ensures
        declaration(tokens_from(src, pos), src, i) matches Ok((tag, _)) ==> tag_readable(tag),
{
    let toks = tokens_from(src, pos);
    if let Ok((tag, _)) = declaration(toks, src, i) {
        let name = identifier(toks, src, i)->Ok_0;
        lemma_identifier_read(src, pos, i);
        lemma_body_readable(src, pos, i + 1, TagView::named(name));
    }
}

/// Every tag that is declared in a source with a value or an attribute
/// reads back as itself, without its children, from the statement that
/// declares its values and attributes.
pub proof fn lemma_declared_tag_round_trip(
    src: Seq<u8>,
    pos: int,
    i: int,
    pairs: Seq<(Seq<char>, ValueView)>,
)
    requires
        valid_utf8(src),
        src.len() < usize::MAX,
        boundary(src, pos),
    ensures
        declaration(tokens_from(src, pos), src, i) matches Ok((tag, _)) ==> (!tag.is_bare()
            && lists_attributes(tag, pairs) && encode_utf8(tag_statement(tag, pairs)).len()
            < usize::MAX ==> read(encode_utf8(tag_statement(tag, pairs))) == (Document {
            tags: seq![TagView { children: Seq::empty(), ..tag }],
            error: None,
        })),
{
    if let Ok((tag, _)) = declaration(tokens_from(src, pos), src, i) {
        lemma_declared_tag_readable(src, pos, i);
        if !tag.is_bare() && lists_attributes(tag, pairs) && encode_utf8(
            tag_statement(tag, pairs),
        ).len() < usize::MAX {
            lemma_tag_round_trip(tag, pairs);
        }
    }
}

} // verus!
