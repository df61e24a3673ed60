//! The parser: from tokens to the tag tree.

use crate::grammar::{
    attribute, attribute_or_literal, body, children, declaration, document, ends_body,
    failure, failure_at, identifier, is_literal, item_width, left, literal, read, token_at,
    Document, TagView, ValueView,
};
use crate::lexis::{
    lemma_scan_advances, lemma_tokens_ok, lemma_tokens_unfold, scan, token_ok, tokens_from,
};
use crate::number::{parse_integer, push_decimal};
use crate::scanner::{Scanner, Token};
use crate::text::{boundary, same_text};
use vstd::prelude::*;
use vstd::string::*;

verus! {

/// A syntax error: what is wrong, and the offsets and the line of the
/// token at which it was found.
#[derive(Debug, Clone, Copy, PartialEq, Eq)]
pub struct SyntaxError {
    pub message: &'static str,
    pub start: usize,
    pub end: usize,
    pub line: usize,
}

impl SyntaxError {
    /// Whether the offsets of the error delimit whole characters of `src`,
    /// so that the text between them can be shown.
    pub open spec fn reportable(self, src: Seq<u8>) -> bool {
        self.start <= self.end && boundary(src, self.start as int) && boundary(
            src,
            self.end as int,
        )
    }
}

/// A literal value.
#[derive(Debug, PartialEq)]
pub enum Value {
    String(String),
    Integer(i64),
    /// A number with a fraction, as it is written in the source.
    Float(String),
    Boolean(bool),
    Null,
}

impl View for Value {
    type V = ValueView;

    open spec fn view(&self) -> ValueView {
        match self {
            Value::String(text) => ValueView::String(text@),
            Value::Integer(n) => ValueView::Integer(*n as int),
            Value::Float(text) => ValueView::Float(text@),
            Value::Boolean(b) => ValueView::Boolean(*b),
            Value::Null => ValueView::Null,
        }
    }
}

impl Value {
    /// The text that spells the value in the language.
    pub fn canonical_text(&self) -> (r: String)
        ensures
            r@ == self@.canonical(),
    {
        let mut out = String::new();
        match self {
            Value::String(text) => {
                proof {
                    reveal_strlit("\"");
                }
                out.append("\"");
                out.append(text.as_str());
                out.append("\"");
            },
            Value::Integer(n) => {
                if *n < 0 {
                    proof {
                        reveal_strlit("-");
                    }
                    out.append("-");
                    push_decimal(&mut out, (-(*n + 1)) as u64 + 1);
                } else {
                    push_decimal(&mut out, *n as u64);
                }
            },
            Value::Float(text) => {
                out.append(text.as_str());
            },
            Value::Boolean(b) => {
                out.append(if *b { "true" } else { "false" });
            },
            Value::Null => {
                out.append("null");
            },
        }
        out
    }
}

/// The views of `values`, in order.
pub open spec fn value_views(values: Seq<Value>) -> Seq<ValueView> {
    values.map_values(|value: Value| value@)
}

/// The attributes that `pairs` holds, a later pair replacing an earlier
/// one of the same name.
pub open spec fn attribute_map(pairs: Seq<(String, Value)>) -> Map<Seq<char>, ValueView>
    decreases pairs.len(),
{
    if pairs.len() == 0 {
        Map::empty()
    } else {
        attribute_map(pairs.drop_last()).insert(pairs.last().0@, pairs.last().1@)
    }
}

/// Whether no two of `pairs` have the same name.
pub open spec fn distinct_names(pairs: Seq<(String, Value)>) -> bool {
    forall|i: int, j: int|
        0 <= i < j < pairs.len() ==> (#[trigger] pairs[i]).0@ != (#[trigger] pairs[j]).0@
}

/// The views of `tags`, in order.
pub open spec fn tag_views(tags: Seq<Tag>) -> Seq<TagView>
    decreases tags,
{
    if tags.len() == 0 {
        Seq::empty()
    } else {
        tag_views(tags.drop_last()).push(tags.last().view())
    }
}

/// A tag: a name, values, attributes and child tags.
#[derive(Debug, PartialEq)]
pub struct Tag {
    name: String,
    values: Vec<Value>,
    /// No two attributes have the same name.
    attributes: Vec<(String, Value)>,
    children: Vec<Tag>,
}

impl View for Tag {
    type V = TagView;

    closed spec fn view(&self) -> TagView
        decreases self,
    {
        TagView {
            name: self.name@,
            values: value_views(self.values@),
            attributes: attribute_map(self.attributes@),
            children: tag_views(self.children@),
        }
    }
}

/// Whether each of `tags` is well formed.
pub open spec fn tags_wf(tags: Seq<Tag>) -> bool
    decreases tags,
{
    if tags.len() == 0 {
        true
    } else {
        tags_wf(tags.drop_last()) && tags.last().wf()
    }
}

/// Tags are well formed exactly if each is.
pub proof fn lemma_tags_wf(tags: Seq<Tag>)
    ensures
        tags_wf(tags) <==> forall|i: int| 0 <= i < tags.len() ==> (#[trigger] tags[i]).wf(),
    decreases tags.len(),
{
    if tags.len() > 0 {
        let front = tags.drop_last();
        lemma_tags_wf(front);
        assert(front.len() == tags.len() - 1);
        if tags_wf(tags) {
            assert forall|i: int| 0 <= i < tags.len() implies (#[trigger] tags[i]).wf() by {
                if i < front.len() {
                    assert(front[i].wf());
                }
            }
        }
        if forall|i: int| 0 <= i < tags.len() ==> (#[trigger] tags[i]).wf() {
            assert forall|i: int| 0 <= i < front.len() implies (#[trigger] front[i]).wf() by {
                assert(tags[i].wf());
            }
            assert(tags[tags.len() - 1].wf());
        }
    }
}

/// The views of tags are as many as the tags, and each is the view of the
/// tag at its place.
pub proof fn lemma_tag_views(tags: Seq<Tag>)
    ensures
        tag_views(tags).len() == tags.len(),
        forall|i: int| 0 <= i < tags.len() ==> #[trigger] tag_views(tags)[i] == tags[i]@,
    decreases tags.len(),
{
    if tags.len() > 0 {
        lemma_tag_views(tags.drop_last());
        assert(tags.drop_last().len() == tags.len() - 1);
        assert(tag_views(tags) == tag_views(tags.drop_last()).push(tags.last().view()));
        assert forall|i: int| 0 <= i < tags.len() implies #[trigger] tag_views(tags)[i]
            == tags[i]@ by {
            if i < tags.len() - 1 {
                assert(tag_views(tags.drop_last())[i] == tags.drop_last()[i]@);
            }
        }
    }
}

/// One more tag has one more view.
pub proof fn lemma_tag_views_push(tags: Seq<Tag>, tag: Tag)
    ensures
        tag_views(tags.push(tag)) == tag_views(tags).push(tag@),
{
    assert(tags.push(tag).drop_last() =~= tags);
}

/// The name of the pair at index `i`.
pub open spec fn name_at(pairs: Seq<(String, Value)>, i: int) -> Seq<char> {
    pairs[i].0@
}

/// A name that no pair has is not in the map.
pub proof fn lemma_attribute_absent(pairs: Seq<(String, Value)>, name: Seq<char>)
    requires
        forall|i: int| 0 <= i < pairs.len() ==> #[trigger] name_at(pairs, i) != name,
    ensures
        !attribute_map(pairs).contains_key(name),
    decreases pairs.len(),
{
    if pairs.len() > 0 {
        let front = pairs.drop_last();
        assert forall|i: int| 0 <= i < front.len() implies #[trigger] name_at(front, i) != name by {
            assert(name_at(pairs, i) != name);
        }
        lemma_attribute_absent(front, name);
        assert(name_at(pairs, pairs.len() - 1) != name);
    }
}

/// The last pair that has a name gives the attribute of that name.
pub proof fn lemma_attribute_present(pairs: Seq<(String, Value)>, i: int)
    requires
        0 <= i < pairs.len(),
        forall|j: int| i < j < pairs.len() ==> #[trigger] name_at(pairs, j) != name_at(pairs, i),
    ensures
        attribute_map(pairs).contains_key(pairs[i].0@),
        attribute_map(pairs)[pairs[i].0@] == pairs[i].1@,
    decreases pairs.len(),
{
    if i < pairs.len() - 1 {
        let front = pairs.drop_last();
        assert forall|j: int| i < j < front.len() implies #[trigger] name_at(front, j) != name_at(
            front,
            i,
        ) by {
            assert(name_at(pairs, j) != name_at(pairs, i));
        }
        lemma_attribute_present(front, i);
        assert(name_at(pairs, pairs.len() - 1) != name_at(pairs, i));
    }
}

/// Replacing the value of the last pair that has a name sets the
/// attribute of that name, and it leaves distinct names distinct.
pub proof fn lemma_attribute_map_update(
    pairs: Seq<(String, Value)>,
    i: int,
    pair: (String, Value),
)
    requires
        0 <= i < pairs.len(),
        pairs[i].0@ == pair.0@,
        forall|j: int| i < j < pairs.len() ==> #[trigger] name_at(pairs, j) != pair.0@,
    ensures
        attribute_map(pairs.update(i, pair)) == attribute_map(pairs).insert(pair.0@, pair.1@),
        distinct_names(pairs) ==> distinct_names(pairs.update(i, pair)),
    decreases pairs.len(),
{
    let updated = pairs.update(i, pair);
    if distinct_names(pairs) {
        assert forall|a: int, b: int| 0 <= a < b < updated.len() implies (
        #[trigger] updated[a]).0@ != (#[trigger] updated[b]).0@ by {
            assert(pairs[a].0@ != pairs[b].0@);
        }
    }
    if i == pairs.len() - 1 {
        assert(updated.drop_last() =~= pairs.drop_last());
        assert(attribute_map(updated) =~= attribute_map(pairs).insert(pair.0@, pair.1@));
    } else {
        let front = pairs.drop_last();
        assert forall|j: int| i < j < front.len() implies #[trigger] name_at(front, j)
            != pair.0@ by {
            assert(name_at(pairs, j) != pair.0@);
        }
        lemma_attribute_map_update(front, i, pair);
        assert(updated.drop_last() =~= front.update(i, pair));
        assert(updated.last() == pairs.last());
        assert(name_at(pairs, pairs.len() - 1) != pair.0@);
        assert(attribute_map(updated) =~= attribute_map(pairs).insert(pair.0@, pair.1@));
    }
}

impl Tag {
    /// Whether the tag is well formed: no two of its attributes have the
    /// same name, and its children are well formed.
    pub closed spec fn wf(&self) -> bool
        decreases self,
    {
        distinct_names(self.attributes@) && tags_wf(self.children@)
    }

    /// A tag of that name with no values, attributes or children.
    pub fn new(name: String) -> (tag: Self)
        ensures
            tag.wf(),
            tag@ == TagView::named(name@),
    {
        let tag = Tag { name, values: Vec::new(), attributes: Vec::new(), children: Vec::new() };
        assert(tag@.values =~= Seq::empty());
        tag
    }

    /// The name of the tag.
    pub fn name(&self) -> (r: &str)
        ensures
            r@ == self@.name,
    {
        self.name.as_str()
    }

    /// The values of the tag, in order.
    pub fn values(&self) -> (r: &Vec<Value>)
        ensures
            value_views(r@) == self@.values,
    {
        &self.values
    }

    /// The attributes of the tag as pairs of name and value, each name once.
    pub fn attributes(&self) -> (r: &Vec<(String, Value)>)
        ensures
            attribute_map(r@) == self@.attributes,
            self.wf() ==> distinct_names(r@),
    {
        &self.attributes
    }

    /// The children of the tag, in order.
    pub fn children(&self) -> (r: &Vec<Tag>)
        ensures
            tag_views(r@) == self@.children,
            r@.len() == self@.children.len(),
            forall|i: int| 0 <= i < r@.len() ==> (#[trigger] r@[i])@ == self@.children[i],
            self.wf() ==> forall|i: int| 0 <= i < r@.len() ==> (#[trigger] r@[i]).wf(),
    {
        proof {
            lemma_tag_views(self.children@);
            lemma_tags_wf(self.children@);
        }
        &self.children
    }

    /// The value of the attribute `name`, if the tag has one of that name.
    pub fn attribute(&self, name: &str) -> (r: Option<&Value>)
        ensures
            match r {
                Some(value) => self@.attributes.contains_key(name@) && self@.attributes[name@]
                    == value@,
                None => !self@.attributes.contains_key(name@),
            },
    {
        let mut i: usize = self.attributes.len();
        while i > 0
            invariant
                i <= self.attributes.len(),
                forall|j: int|
                    i <= j < self.attributes.len() ==> #[trigger] name_at(self.attributes@, j)
                        != name@,
            decreases i,
        {
            i = i - 1;
            if same_text(self.attributes[i].0.as_str(), name) {
                proof {
                    lemma_attribute_present(self.attributes@, i as int);
                }
                return Some(&self.attributes[i].1);
            }
        }
        proof {
            lemma_attribute_absent(self.attributes@, name@);
        }
        None
    }

    /// Whether the tag has neither a value nor an attribute.
    pub fn is_bare(&self) -> (r: bool)
        ensures
            r == self@.is_bare(),
    {
        proof {
            if self.attributes@.len() > 0 {
                assert(self@.attributes.contains_key(self.attributes@.last().0@));
            }
        }
        self.values.len() == 0 && self.attributes.len() == 0
    }

    /// Adds a value after those that the tag has.
    pub fn add_value(&mut self, value: Value)
        ensures
            final(self)@ == old(self)@.with_value(value@),
            old(self).wf() ==> final(self).wf(),
    {
        self.values.push(value);
        assert(self@.values =~= old(self)@.values.push(value@));
    }

    /// Sets the attribute `name` to `value`, whether the tag has one of
    /// that name or not.
    pub fn set_attribute(&mut self, name: String, value: Value)
        ensures
            final(self)@ == old(self)@.with_attribute(name@, value@),
            old(self).wf() ==> final(self).wf(),
    {
        let mut i: usize = self.attributes.len();
        while i > 0
            invariant
                i <= self.attributes.len(),
                *self == *old(self),
                forall|j: int|
                    i <= j < self.attributes.len() ==> #[trigger] name_at(self.attributes@, j)
                        != name@,
            decreases i,
        {
            i = i - 1;
            if self.attributes[i].0 == name {
                proof {
                    lemma_attribute_map_update(self.attributes@, i as int, (name, value));
                }
                self.attributes.set(i, (name, value));
                return ;
            }
        }
        proof {
            let pairs = self.attributes@.push((name, value));
            assert(pairs.drop_last() =~= self.attributes@);
            if old(self).wf() {
                assert forall|a: int, b: int| 0 <= a < b < pairs.len() implies (
                #[trigger] pairs[a]).0@ != (#[trigger] pairs[b]).0@ by {
                    if b < self.attributes@.len() {
                        assert(self.attributes@[a].0@ != self.attributes@[b].0@);
                    } else {
                        assert(name_at(self.attributes@, a) != name@);
                    }
                }
            }
        }
        self.attributes.push((name, value));
    }

    /// Adds a child after those that the tag has.
    pub fn add_child(&mut self, child: Tag)
        ensures
            final(self)@ == old(self)@.with_child(child@),
            old(self).wf() && child.wf() ==> final(self).wf(),
    {
        proof {
            lemma_tag_views_push(self.children@, child);
            assert(self.children@.push(child).drop_last() =~= self.children@);
        }
        self.children.push(child);
    }
}

/// A parser over the tokens of a scanner. It looks one token ahead: it
/// holds the token that comes next and the one before it.
pub struct Parser<'a> {
    scanner: &'a mut Scanner<'a>,
    previous: Token,
    current: Token,
    /// Where the scanner stood when the parser took it over.
    origin: Ghost<int>,
    /// How many of the tokens the parser has consumed.
    index: Ghost<int>,
}

impl<'a> Parser<'a> {
    /// The bytes of the source text.
    pub closed spec fn source(&self) -> Seq<u8> {
        self.scanner.bytes()
    }

    /// All the tokens that the parser reads, from the first one on.
    pub closed spec fn tokens(&self) -> Seq<Token> {
        tokens_from(self.scanner.bytes(), self.origin@)
    }

    /// The index of the token that comes next.
    pub closed spec fn index(&self) -> int {
        self.index@
    }

    /// Whether the parser is well formed: the two tokens that it holds are
    /// those at and before its index, and its scanner stands after them.
    pub closed spec fn wf(&self) -> bool {
        let src = self.source();
        let toks = self.tokens();
        let i = self.index@;
        &&& self.scanner.wf()
        &&& 0 <= i <= toks.len()
        &&& self.current == token_at(toks, i)
        &&& self.previous == token_at(toks, i - 1)
        &&& forall|k: int| 0 <= k < toks.len() ==> token_ok(src, #[trigger] toks[k])
        &&& tokens_from(src, self.scanner.position()) == if i < toks.len() {
            toks.skip(i + 1)
        } else {
            Seq::empty()
        }
        &&& i == toks.len() ==> self.scanner.position() == src.len()
    }

    /// Whether the parser reads the same tokens of the same source as
    /// `before`.
    pub open spec fn continues(&self, before: &Self) -> bool {
        self.source() == before.source() && self.tokens() == before.tokens()
    }

    /// The index of a well-formed parser lies within its tokens or just
    /// past them.
    pub proof fn lemma_index(&self)
        requires
            self.wf(),
        ensures
            0 <= self.index() <= self.tokens().len(),
    {
    }

    /// A parser that reads the tokens of `scanner` from where it stands.
    pub fn new(scanner: &'a mut Scanner<'a>) -> (parser: Self)
        requires
            old(scanner).wf(),
        ensures
            parser.wf(),
            parser.source() == old(scanner).bytes(),
            parser.tokens() == tokens_from(old(scanner).bytes(), old(scanner).position()),
            parser.index() == 0,
    {
        let ghost src = scanner.bytes();
        let ghost origin = scanner.position();
        proof {
            scanner.lemma_wf();
            lemma_tokens_ok(src, origin);
            lemma_tokens_unfold(src, origin);
        }
        let current = match scanner.scan_token() {
            Some(token) => token,
            None => Token::Eof,
        };
        let parser = Parser {
            scanner,
            previous: Token::Eof,
            current,
            origin: Ghost(origin),
            index: Ghost(0),
        };
        proof {
            let toks = tokens_from(src, origin);
            if toks.len() > 0 {
                assert(toks.skip(1) =~= tokens_from(src, scan(src, origin).pos));
            }
        }
        parser
    }

    /// Takes the next token from the scanner: the current token becomes
    /// the previous one, which is returned.
    fn advance(&mut self) -> (r: Token)
        requires
            old(self).wf(),
            old(self).index() < old(self).tokens().len(),
        ensures
            final(self).wf(),
            final(self).continues(old(self)),
            final(self).index() == old(self).index() + 1,
            r == token_at(old(self).tokens(), old(self).index()),
    {
        let ghost src = self.source();
        let ghost toks = self.tokens();
        let ghost i = self.index@;
        let ghost pos = self.scanner.position();
        proof {
            self.scanner.lemma_wf();
            lemma_tokens_unfold(src, pos);
            lemma_scan_advances(src, pos);
        }
        let previous = self.current;
        let next = self.scanner.scan_token();
        self.previous = previous;
        self.current = match next {
            Some(token) => token,
            None => Token::Eof,
        };
        self.index = Ghost(i + 1);
        proof {
            let rest = toks.skip(i + 1);
            if next is Some {
                assert(rest[0] == next->0);
                assert(toks.skip(i + 2) =~= rest.skip(1));
                assert(rest.skip(1) =~= tokens_from(src, scan(src, pos).pos));
            } else {
                assert(rest.len() == 0);
            }
        }
        previous
    }

    /// The error `message` at the place where the parser stands: at the
    /// current token; at the end of the tokens, at the previous token; and
    /// without any token at the end of the source.
    fn fail(&self, message: &'static str) -> (error: SyntaxError)
        requires
            self.wf(),
        ensures
            error == failure(message, self.tokens(), self.source(), self.index()),
            error.reportable(self.source()),
    {
        proof {
            self.scanner.lemma_wf();
        }
        let (start, end, line) = match self.current {
            Token::Eof => match self.previous {
                Token::Eof => {
                    let length = self.scanner.source_length();
                    (length, length, self.scanner.current_line())
                },
                previous => previous.position(),
            },
            current => current.position(),
        };
        SyntaxError { message, start, end, line }
    }

    /// The error `message` at the place of `token`, one of the tokens of
    /// the parser.
    fn fail_at(&self, message: &'static str, token: Token) -> (error: SyntaxError)
        requires
            self.wf(),
            exists|k: int| 0 <= k < self.tokens().len() && self.tokens()[k] == token,
        ensures
            error == failure_at(message, token),
            error.reportable(self.source()),
    {
        let (start, end, line) = token.position();
        SyntaxError { message, start, end, line }
    }

    /// Reads an identifier and returns the name that it spells.
    ///
    /// Fails, without reading anything, with the scanner's message on an
    /// error token, with `Expect identifier.` at the end of the tokens and
    /// with `Invalid identifier.` on any other token.
    pub fn identifier(&mut self) -> (r: Result<String, SyntaxError>)
        requires
            old(self).wf(),
        ensures
            final(self).wf(),
            final(self).continues(old(self)),
            match identifier(old(self).tokens(), old(self).source(), old(self).index()) {
                Ok(name) => r matches Ok(text) && text@ == name && final(self).index() == old(
                    self,
                ).index() + 1,
                Err(error) => r == Err::<String, SyntaxError>(error) && final(self).index() == old(
                    self,
                ).index(),
            },
            r matches Err(error) ==> error.reportable(old(self).source()),
    {
        match self.current {
            Token::Identifier(start, end, _) => {
                self.advance();
                Ok(self.scanner.source_slice(start, end).to_owned())
            },
            Token::Error(message, start, end, line) => Err(
                SyntaxError { message, start, end, line },
            ),
            Token::Eof => Err(self.fail("Expect identifier.")),
            _ => Err(self.fail("Invalid identifier.")),
        }
    }
    /// Whether the current token is a literal or an error token.
    fn at_literal(&self) -> (r: bool)
        requires
            self.wf(),
        ensures
            r == (is_literal(token_at(self.tokens(), self.index())) || token_at(
                self.tokens(),
                self.index(),
            ) is Error),
    {
        match self.current {
            Token::Integer(..)
            | Token::Float64(..)
            | Token::String(..)
            | Token::True(..)
            | Token::False(..)
            | Token::Null(..)
            | Token::Error(..) => true,
            _ => false,
        }
    }

    /// Reads a literal and returns its value.
    ///
    /// Fails, without reading anything, with the scanner's message on an
    /// error token, with `Integer out of range.` on an integer that 64 bits
    /// do not hold, and with `Expect literal.` on any other token.
    pub fn literal(&mut self) -> (r: Result<Value, SyntaxError>)
        requires
            old(self).wf(),
        ensures
            final(self).wf(),
            final(self).continues(old(self)),
            match literal(old(self).tokens(), old(self).source(), old(self).index()) {
                Ok(value) => r matches Ok(found) && found@ == value && final(self).index() == old(
                    self,
                ).index() + 1,
                Err(error) => r == Err::<Value, SyntaxError>(error) && final(self).index() == old(
                    self,
                ).index(),
            },
            r matches Err(error) ==> error.reportable(old(self).source()),
    {
        match self.current {
            Token::Integer(start, end, _) => {
                let digits = self.scanner.source_slice(start, end);
                match parse_integer(digits.as_bytes()) {
                    Some(n) => {
                        self.advance();
                        Ok(Value::Integer(n))
                    },
                    None => Err(self.fail("Integer out of range.")),
                }
            },
            Token::Float64(start, end, _) => {
                self.advance();
                Ok(Value::Float(self.scanner.source_slice(start, end).to_owned()))
            },
            Token::String(start, end, _) => {
                self.advance();
                Ok(Value::String(self.scanner.source_slice(start, end).to_owned()))
            },
            Token::True(..) => {
                self.advance();
                Ok(Value::Boolean(true))
            },
            Token::False(..) => {
                self.advance();
                Ok(Value::Boolean(false))
            },
            Token::Null(..) => {
                self.advance();
                Ok(Value::Null)
            },
            Token::Error(message, start, end, line) => Err(
                SyntaxError { message, start, end, line },
            ),
            _ => Err(self.fail("Expect literal.")),
        }
    }

    /// Reads `=` and a literal after the name of an attribute, which has
    /// been read, and returns the name and the value.
    fn value_of(&mut self, name: String) -> (r: Result<(String, Value), SyntaxError>)
        requires
            old(self).wf(),
            token_at(old(self).tokens(), old(self).index()) is Equal,
            identifier(old(self).tokens(), old(self).source(), old(self).index() - 1) == Ok::<
                Seq<char>,
                SyntaxError,
            >(name@),
        ensures
            final(self).wf(),
            final(self).continues(old(self)),
            match attribute(old(self).tokens(), old(self).source(), old(self).index() - 1) {
                Ok((name, value)) => r matches Ok(found) && found.0@ == name && found.1@ == value
                    && final(self).index() == old(self).index() + 2,
                Err(error) => r == Err::<(String, Value), SyntaxError>(error),
            },
            old(self).index() <= final(self).index(),
            r matches Err(error) ==> error.reportable(old(self).source()),
    {
        proof {
            self.lemma_index();
        }
        let equal = self.advance();
        if !self.at_literal() {
            return Err(self.fail_at("Expect literal after '='.", equal));
        }
        match self.literal() {
            Ok(value) => Ok((name, value)),
            Err(error) => Err(error),
        }
    }

    /// Reads an attribute, that is an identifier, `=` and a literal, and
    /// returns its name and its value.
    ///
    /// Fails as `identifier` does where no identifier comes next. After
    /// the name it fails with `Unexpected identifier.` at the end of the
    /// tokens and with `Expect '=' after attribute name.` on any other
    /// token but `=`. After `=` it fails as `literal` does on an error
    /// token or an integer out of range, and with
    /// `Expect literal after '='.`, reported at the `=`, where no literal
    /// follows.
    pub fn attribute(&mut self) -> (r: Result<(String, Value), SyntaxError>)
        requires
            old(self).wf(),
        ensures
            final(self).wf(),
            final(self).continues(old(self)),
            match attribute(old(self).tokens(), old(self).source(), old(self).index()) {
                Ok((name, value)) => r matches Ok(found) && found.0@ == name && found.1@ == value
                    && final(self).index() == old(self).index() + 3,
                Err(error) => r == Err::<(String, Value), SyntaxError>(error),
            },
            old(self).index() <= final(self).index(),
            r matches Err(error) ==> error.reportable(old(self).source()),
    {
        let name = match self.identifier() {
            Ok(name) => name,
            Err(error) => {
                return Err(error);
            },
        };
        match self.current {
            Token::Equal(..) => self.value_of(name),
            Token::Eof => Err(self.fail("Unexpected identifier.")),
            other => Err(self.fail_at("Expect '=' after attribute name.", other)),
        }
    }

    /// Reads an attribute or a bare value; the name is `None` for a value.
    /// An identifier with `=` after it starts an attribute; an identifier
    /// without it is neither an attribute nor a value.
    ///
    /// Fails as `attribute` does after a name and `=`, and as `literal`
    /// does on an error token or an integer out of range. On any other
    /// token, an identifier that no `=` follows among them, it fails with
    /// `Expect literal value or attribute.`, reported at that token.
    pub fn attribute_or_literal(&mut self) -> (r: Result<(Option<String>, Value), SyntaxError>)
        requires
            old(self).wf(),
        ensures
            final(self).wf(),
            final(self).continues(old(self)),
            match attribute_or_literal(old(self).tokens(), old(self).source(), old(self).index()) {
                Ok((name, value)) => r matches Ok(found) && (match name {
                    Some(name) => found.0 matches Some(text) && text@ == name,
                    None => found.0 is None,
                }) && found.1@ == value && final(self).index() == old(self).index() + item_width(
                    old(self).tokens(),
                    old(self).index(),
                ),
                Err(error) => r == Err::<(Option<String>, Value), SyntaxError>(error),
            },
            old(self).index() <= final(self).index(),
            r matches Err(error) ==> error.reportable(old(self).source()),
    {
        match self.current {
            Token::Identifier(..) => {
                let word = self.current;
                proof {
                    self.lemma_index();
                }
                let name = match self.identifier() {
                    Ok(name) => name,
                    Err(error) => {
                        return Err(error);
                    },
                };
                match self.current {
                    Token::Equal(..) => match self.value_of(name) {
                        Ok((name, value)) => Ok((Some(name), value)),
                        Err(error) => Err(error),
                    },
                    _ => Err(self.fail_at("Expect literal value or attribute.", word)),
                }
            },
            _ => {
                if self.at_literal() {
                    match self.literal() {
                        Ok(value) => Ok((None, value)),
                        Err(error) => Err(error),
                    }
                } else {
                    Err(self.fail("Expect literal value or attribute."))
                }
            },
        }
    }

    /// Reads the declaration of a tag: its name, its values and
    /// attributes, and either `;` or a block of child declarations in
    /// braces. A tag that ends with `;` must have a value or an attribute;
    /// one with a block need not.
    ///
    /// Fails as `identifier` does where no name comes next, as
    /// `attribute_or_literal` does among the values and attributes, with
    /// `Expect literal value or attribute.` on a `;` after a bare name,
    /// with `Expect ';' or '{'.` where the tokens end before either, and
    /// with `Expect '}' after tag body.` where they end inside the block.
    /// After a failure nothing of the tag is kept.
    ///
    /// A block inside a block is read by a call inside the call: the stack
    /// bounds the depth of the blocks that can be read.
    pub fn tag_declaration(&mut self) -> (r: Result<Tag, SyntaxError>)
        requires
            old(self).wf(),
        ensures
            final(self).wf(),
            final(self).continues(old(self)),
            match declaration(old(self).tokens(), old(self).source(), old(self).index()) {
                Ok((tag, after)) => r matches Ok(found) && found@ == tag && found.wf()
                    && final(self).index() == old(self).index() + 1 + after,
                Err(error) => r == Err::<Tag, SyntaxError>(error),
            },
            old(self).index() <= final(self).index(),
            r matches Err(error) ==> error.reportable(old(self).source()),
        decreases left(old(self).tokens(), old(self).index()),
    {
        let ghost src = self.source();
        let ghost toks = self.tokens();
        let ghost first = self.index();
        let name = match self.identifier() {
            Ok(name) => name,
            Err(error) => {
                return Err(error);
            },
        };
        let mut tag = Tag::new(name);
        let ghost bare = tag@;
        loop
            invariant
                self.wf(),
                self.source() == src,
                src == old(self).source(),
                self.tokens() == toks,
                toks == old(self).tokens(),
                first == old(self).index(),
                first < self.index(),
                tag.wf(),
                tag@.children == Seq::<TagView>::empty(),
                bare == TagView::named(bare.name),
                identifier(toks, src, first) == Ok::<Seq<char>, SyntaxError>(bare.name),
                body(toks, src, first + 1, bare) == body(toks, src, self.index(), tag@),
            ensures
                ends_body(toks, self.index()),
            decreases left(toks, self.index()),
        {
            proof {
                self.lemma_index();
            }
            match self.current {
                Token::Semicolon(..) | Token::LeftBrace(..) | Token::Eof => {
                    break ;
                },
                _ => {},
            }
            match self.attribute_or_literal() {
                Ok((Some(name), value)) => {
                    tag.set_attribute(name, value);
                },
                Ok((None, value)) => {
                    tag.add_value(value);
                },
                Err(error) => {
                    return Err(error);
                },
            }
        }
        let ghost end = self.index();
        let ghost filled = tag@;
        match self.current {
            Token::Semicolon(..) => {
                if tag.is_bare() {
                    return Err(self.fail("Expect literal value or attribute."));
                }
                self.advance();
                Ok(tag)
            },
            Token::LeftBrace(..) => {
                self.advance();
                loop
                    invariant
                        self.wf(),
                        self.source() == src,
                        src == old(self).source(),
                        self.tokens() == toks,
                        toks == old(self).tokens(),
                        first == old(self).index(),
                        first < end < self.index(),
                        tag.wf(),
                        bare == TagView::named(bare.name),
                        identifier(toks, src, first) == Ok::<Seq<char>, SyntaxError>(bare.name),
                        body(toks, src, first + 1, bare) == Ok::<(TagView, int), SyntaxError>(
                            (filled, end),
                        ),
                        token_at(toks, end) is LeftBrace,
                        tag@ == (TagView { children: tag@.children, ..filled }),
                        match children(toks, src, self.index(), tag@.children) {
                            Ok((all, more)) => children(toks, src, end + 1, Seq::empty()) == Ok::<
                                (Seq<TagView>, nat),
                                SyntaxError,
                            >((all, (more + self.index() - end - 1) as nat)),
                            Err(error) => children(toks, src, end + 1, Seq::empty()) == Err::<
                                (Seq<TagView>, nat),
                                SyntaxError,
                            >(error),
                        },
                    decreases left(toks, self.index()),
                {
                    proof {
                        self.lemma_index();
                    }
                    match self.current {
                        Token::RightBrace(..) => {
                            self.advance();
                            return Ok(tag);
                        },
                        Token::Eof => {
                            return Err(self.fail("Expect '}' after tag body."));
                        },
                        _ => {},
                    }
                    match self.tag_declaration() {
                        Ok(child) => {
                            tag.add_child(child);
                        },
                        Err(error) => {
                            return Err(error);
                        },
                    }
                }
            },
            _ => Err(self.fail("Expect ';' or '{'.")),
        }
    }

    /// Reads declarations up to the end of the tokens or to the first
    /// error, and returns the tags that were declared before it, and it.
    pub fn parse(self) -> (r: Parsed)
        requires
            self.wf(),
        ensures
            r@ == document(self.tokens(), self.source(), self.index(), Seq::empty()),
            tags_wf(r.tags@),
            r.error matches Some(error) ==> error.reportable(self.source()),
    {
        let ghost src = self.source();
        let ghost toks = self.tokens();
        let ghost first = self.index();
        let mut parser = self;
        let mut tags: Vec<Tag> = Vec::new();
        loop
            invariant
                parser.wf(),
                parser.source() == src,
                src == self.source(),
                parser.tokens() == toks,
                toks == self.tokens(),
                first == self.index(),
                tags_wf(tags@),
                document(toks, src, first, Seq::empty()) == document(
                    toks,
                    src,
                    parser.index(),
                    tag_views(tags@),
                ),
            decreases left(toks, parser.index()),
        {
            proof {
                parser.lemma_index();
            }
            match parser.current {
                Token::Eof => {
                    return Parsed { tags, error: None };
                },
                _ => {},
            }
            match parser.tag_declaration() {
                Ok(tag) => {
                    proof {
                        lemma_tag_views_push(tags@, tag);
                        assert(tags@.push(tag).drop_last() =~= tags@);
                    }
                    tags.push(tag);
                },
                Err(error) => {
                    return Parsed { tags, error: Some(error) };
                },
            }
        }
    }
}

/// Reads the document `source`: the tags that it declares before its first
/// error, and that error, if there is one.
pub fn parse_source(source: &str) -> (r: Parsed)
    requires
        source.spec_bytes().len() < usize::MAX,
    ensures
        r@ == read(source.spec_bytes()),
        tags_wf(r.tags@),
        r.error matches Some(error) ==> error.reportable(source.spec_bytes()),
{
    let mut scanner = Scanner::new(source);
    let parser = Parser::new(&mut scanner);
    parser.parse()
}

/// What parsing a document gives: the tags that were declared before the
/// first error, and that error, if there was one.
pub struct Parsed {
    pub tags: Vec<Tag>,
    pub error: Option<SyntaxError>,
}

impl View for Parsed {
    type V = Document;

    open spec fn view(&self) -> Document {
        Document { tags: tag_views(self.tags@), error: self.error }
    }
}

} // verus!
