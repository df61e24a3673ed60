//! The grammar of the language, as functions on the tokens of a source.
//!
//! ```text
//! document        := tag_declaration* END
//! tag_declaration := IDENTIFIER (attribute | literal)* terminator
//! terminator      := ';'  |  '{' tag_declaration* '}'
//! attribute       := IDENTIFIER '=' literal
//! literal         := INTEGER | FLOAT | STRING | 'true' | 'false' | 'null'
//! ```
//!
//! Every function takes the tokens `toks` of the source, the bytes `src`
//! of the source (tokens hold offsets, not text) and the index `i` of the
//! token at which it starts. Past the last token stands `Eof`.

use crate::lexis::{line_at, tokens_from};
use crate::number::integer_value;
use crate::parser::SyntaxError;
use crate::scanner::Token;
use crate::text::text;
use vstd::prelude::*;

verus! {

/// A literal value.
pub enum ValueView {
    String(Seq<char>),
    Integer(int),
    /// A number with a fraction, as it is written in the source.
    Float(Seq<char>),
    Boolean(bool),
    Null,
}

/// A tag: a name, values in the order of the source, attributes by name,
/// and child tags in the order of the source.
pub struct TagView {
    pub name: Seq<char>,
    pub values: Seq<ValueView>,
    pub attributes: Map<Seq<char>, ValueView>,
    pub children: Seq<TagView>,
}

impl TagView {
    /// The tag of that name with no values, attributes or children.
    pub open spec fn named(name: Seq<char>) -> TagView {
        TagView { name, values: Seq::empty(), attributes: Map::empty(), children: Seq::empty() }
    }

    /// Whether the tag has neither a value nor an attribute.
    pub open spec fn is_bare(self) -> bool {
        self.values.len() == 0 && forall|name: Seq<char>| !self.attributes.contains_key(name)
    }

    /// The tag with one more value at the end.
    pub open spec fn with_value(self, value: ValueView) -> TagView {
        TagView { values: self.values.push(value), ..self }
    }

    /// The tag with the attribute `name` set to `value`, whether it had
    /// one of that name or not.
    pub open spec fn with_attribute(self, name: Seq<char>, value: ValueView) -> TagView {
        TagView { attributes: self.attributes.insert(name, value), ..self }
    }

    /// The tag with one more child at the end.
    pub open spec fn with_child(self, child: TagView) -> TagView {
        TagView { children: self.children.push(child), ..self }
    }
}

/// The token at index `i`; `Eof` outside the tokens.
pub open spec fn token_at(toks: Seq<Token>, i: int) -> Token {
    if 0 <= i < toks.len() {
        toks[i]
    } else {
        Token::Eof
    }
}

/// How many tokens are left from index `i` on.
pub open spec fn left(toks: Seq<Token>, i: int) -> nat {
    if 0 <= i <= toks.len() {
        (toks.len() - i) as nat
    } else {
        0
    }
}

/// Where an error at token `i` is reported: at that token; at the end of
/// the tokens, at the last token; and without any token at the end of the
/// source.
pub open spec fn anchor(toks: Seq<Token>, src: Seq<u8>, i: int) -> (usize, usize, usize) {
    if 0 <= i < toks.len() {
        toks[i].span()
    } else if 0 < toks.len() <= i {
        toks.last().span()
    } else {
        (src.len() as usize, src.len() as usize, line_at(src, src.len() as int) as usize)
    }
}

/// The error `message`, reported for token `i`.
pub open spec fn failure(message: &'static str, toks: Seq<Token>, src: Seq<u8>, i: int)
    -> SyntaxError {
    let (start, end, line) = anchor(toks, src, i);
    SyntaxError { message, start, end, line }
}

/// The error `message`, reported at the place of `token`.
pub open spec fn failure_at(message: &'static str, token: Token) -> SyntaxError {
    let (start, end, line) = token.span();
    SyntaxError { message, start, end, line }
}

/// Whether `token` is a literal: a number, a string, `true`, `false` or
/// `null`.
pub open spec fn is_literal(token: Token) -> bool {
    token is Integer || token is Float64 || token is String || token is True || token is False
        || token is Null
}

/// The name that the identifier at token `i` spells.
///
/// Fails with the scanner's message on an error token, with
/// `Expect identifier.` at the end of the tokens and with
/// `Invalid identifier.` on any other token.
pub open spec fn identifier(toks: Seq<Token>, src: Seq<u8>, i: int) -> Result<
    Seq<char>,
    SyntaxError,
> {
    match token_at(toks, i) {
        Token::Identifier(start, end, _) => Ok(text(src, start as int, end as int)),
        Token::Error(message, start, end, line) => Err(SyntaxError { message, start, end, line }),
        Token::Eof => Err(failure("Expect identifier.", toks, src, i)),
        _ => Err(failure("Invalid identifier.", toks, src, i)),
    }
}

/// The value of the literal at token `i`.
///
/// Fails with the scanner's message on an error token, with
/// `Integer out of range.` on an integer that 64 bits do not hold, and with
/// `Expect literal.` on any other token.
pub open spec fn literal(toks: Seq<Token>, src: Seq<u8>, i: int) -> Result<ValueView, SyntaxError> {
    match token_at(toks, i) {
        Token::Integer(start, end, _) => match integer_value(
            src.subrange(start as int, end as int),
        ) {
            Some(n) => Ok(ValueView::Integer(n)),
            None => Err(failure("Integer out of range.", toks, src, i)),
        },
        Token::Float64(start, end, _) => Ok(ValueView::Float(text(src, start as int, end as int))),
        Token::String(start, end, _) => Ok(ValueView::String(text(src, start as int, end as int))),
        Token::True(..) => Ok(ValueView::Boolean(true)),
        Token::False(..) => Ok(ValueView::Boolean(false)),
        Token::Null(..) => Ok(ValueView::Null),
        Token::Error(message, start, end, line) => Err(SyntaxError { message, start, end, line }),
        _ => Err(failure("Expect literal.", toks, src, i)),
    }
}

/// The attribute that starts at token `i`: an identifier, `=` and a
/// literal, three tokens in all.
///
/// Fails as `identifier` does where no identifier stands at `i`. After the
/// name it fails with `Unexpected identifier.` at the end of the tokens and
/// with `Expect '=' after attribute name.` on any other token but `=`.
/// After `=` it fails as `literal` does on an error token or an integer out
/// of range, and with `Expect literal after '='.`, reported at the `=`,
/// where no literal follows.
pub open spec fn attribute(toks: Seq<Token>, src: Seq<u8>, i: int) -> Result<
    (Seq<char>, ValueView),
    SyntaxError,
> {
    match identifier(toks, src, i) {
        Err(error) => Err(error),
        Ok(name) => match token_at(toks, i + 1) {
            Token::Equal(..) => {
                let value = token_at(toks, i + 2);
                if is_literal(value) || value is Error {
                    match literal(toks, src, i + 2) {
                        Ok(value) => Ok((name, value)),
                        Err(error) => Err(error),
                    }
                } else {
                    Err(failure_at("Expect literal after '='.", token_at(toks, i + 1)))
                }
            },
            Token::Eof => Err(failure("Unexpected identifier.", toks, src, i + 1)),
            other => Err(failure_at("Expect '=' after attribute name.", other)),
        },
    }
}

/// The attribute or the bare value that starts at token `i`, the name being
/// `None` for a value. An identifier with `=` after it starts an attribute;
/// an identifier without it is neither an attribute nor a value.
///
/// Fails as `attribute` does after a name and `=`, and as `literal` does on
/// an error token or an integer out of range. On any other token, an
/// identifier that no `=` follows among them, it fails with
/// `Expect literal value or attribute.`, reported at that token.
pub open spec fn attribute_or_literal(toks: Seq<Token>, src: Seq<u8>, i: int) -> Result<
    (Option<Seq<char>>, ValueView),
    SyntaxError,
> {
    let token = token_at(toks, i);
    if token is Identifier && token_at(toks, i + 1) is Equal {
        match attribute(toks, src, i) {
            Ok((name, value)) => Ok((Some(name), value)),
            Err(error) => Err(error),
        }
    } else if is_literal(token) || token is Error {
        match literal(toks, src, i) {
            Ok(value) => Ok((None, value)),
            Err(error) => Err(error),
        }
    } else {
        Err(failure("Expect literal value or attribute.", toks, src, i))
    }
}

/// The number of tokens that the attribute or value at token `i` takes up.
pub open spec fn item_width(toks: Seq<Token>, i: int) -> int {
    if token_at(toks, i) is Identifier {
        3
    } else {
        1
    }
}

/// Whether token `i` ends the values and attributes of a tag: `;`, `{` or
/// the end of the tokens.
pub open spec fn ends_body(toks: Seq<Token>, i: int) -> bool {
    let token = token_at(toks, i);
    token is Semicolon || token is LeftBrace || token is Eof
}

/// The values and attributes from token `i` on, added to `tag` in their
/// order, and the index of the token that ends them. An attribute that
/// occurs again takes the later value.
pub open spec fn body(toks: Seq<Token>, src: Seq<u8>, i: int, tag: TagView) -> Result<
    (TagView, int),
    SyntaxError,
>
    decreases left(toks, i),
{
    if ends_body(toks, i) {
        Ok((tag, i))
    } else {
        match attribute_or_literal(toks, src, i) {
            Err(error) => Err(error),
            Ok((Some(name), value)) => body(
                toks,
                src,
                i + item_width(toks, i),
                tag.with_attribute(name, value),
            ),
            Ok((None, value)) => body(toks, src, i + item_width(toks, i), tag.with_value(value)),
        }
    }
}

/// The tag that is declared from token `i` on, and the number of tokens
/// that the declaration takes up after its name.
///
/// A declaration is a name, then values and attributes, then either `;` or
/// a block of child declarations in braces. A tag that ends with `;` must
/// have a value or an attribute; one with a block need not.
///
/// Fails as `identifier` does where no name stands at `i`, as
/// `attribute_or_literal` does among the values and attributes, with
/// `Expect literal value or attribute.` on a `;` after a bare name, with
/// `Expect ';' or '{'.` where the tokens end before either, and as
/// `children` does inside the block.
pub open spec fn declaration(toks: Seq<Token>, src: Seq<u8>, i: int) -> Result<
    (TagView, nat),
    SyntaxError,
>
    decreases left(toks, i), 0int,
{
    match identifier(toks, src, i) {
        Err(error) => Err(error),
        Ok(name) => match body(toks, src, i + 1, TagView::named(name)) {
            Err(error) => Err(error),
            Ok((tag, end)) => {
                proof {
                    lemma_body_end(toks, src, i + 1, TagView::named(name));
                }
                match token_at(toks, end) {
                    Token::Semicolon(..) => if tag.is_bare() {
                        Err(failure("Expect literal value or attribute.", toks, src, end))
                    } else {
                        Ok((tag, (end - i) as nat))
                    },
                    Token::LeftBrace(..) => match children(toks, src, end + 1, Seq::empty()) {
                        Err(error) => Err(error),
                        Ok((found, more)) => Ok(
                            (TagView { children: found, ..tag }, (end - i + more) as nat),
                        ),
                    },
                    _ => Err(failure("Expect ';' or '{'.", toks, src, end)),
                }
            },
        },
    }
}

/// The tags that are declared from token `i` up to the closing `}`, added
/// to `found` in their order, and the number of tokens up to and including
/// that `}`.
///
/// Fails as `declaration` does, and with `Expect '}' after tag body.` where
/// the tokens end before the `}`.
pub open spec fn children(toks: Seq<Token>, src: Seq<u8>, i: int, found: Seq<TagView>) -> Result<
    (Seq<TagView>, nat),
    SyntaxError,
>
    decreases left(toks, i), 1int,
{
    match token_at(toks, i) {
        Token::RightBrace(..) => Ok((found, 1)),
        Token::Eof => Err(failure("Expect '}' after tag body.", toks, src, i)),
        _ => match declaration(toks, src, i) {
            Err(error) => Err(error),
            Ok((tag, after)) => match children(toks, src, i + 1 + after, found.push(tag)) {
                Err(error) => Err(error),
                Ok((all, more)) => Ok((all, 1 + after + more)),
            },
        },
    }
}

/// What reading a document gives: the tags that were declared before the
/// first error, and that error, if there was one.
pub struct Document {
    pub tags: Seq<TagView>,
    pub error: Option<SyntaxError>,
}

/// The tags that are declared from token `i` up to the end of the tokens or
/// to the first error, added to `found` in their order, and that error.
pub open spec fn document(toks: Seq<Token>, src: Seq<u8>, i: int, found: Seq<TagView>) -> Document
    decreases left(toks, i),
{
    if token_at(toks, i) is Eof {
        Document { tags: found, error: None }
    } else {
        match declaration(toks, src, i) {
            Err(error) => Document { tags: found, error: Some(error) },
            Ok((tag, after)) => document(toks, src, i + 1 + after, found.push(tag)),
        }
    }
}

/// What reading the source `src` from its start gives.
pub open spec fn read(src: Seq<u8>) -> Document {
    document(tokens_from(src, 0), src, 0, Seq::empty())
}

/// The values and attributes of a tag end at or after the token at which
/// they start.
pub proof fn lemma_body_end(toks: Seq<Token>, src: Seq<u8>, i: int, tag: TagView)
    ensures
        body(toks, src, i, tag) matches Ok((_, end)) ==> i <= end && ends_body(toks, end),
    decreases left(toks, i),
{
    if !ends_body(toks, i) {
        match attribute_or_literal(toks, src, i) {
            Err(error) => {},
            Ok((Some(name), value)) => {
                lemma_body_end(toks, src, i + item_width(toks, i), tag.with_attribute(name, value));
            },
            Ok((None, value)) => {
                lemma_body_end(toks, src, i + item_width(toks, i), tag.with_value(value));
            },
        }
    }
}

} // verus!
