//! The scanner: from source text to tokens, one per call.

use crate::lexis::{
    in_run, is_alpha, is_digit, is_name_byte, lemma_newlines_bound, lemma_run_end_bounds,
    lemma_scan_boundary, lemma_skip_trivia_bounds, line_at, number, run_end, scan, skip_trivia,
    string, word, word_false, word_null, word_token, word_true, Run, COLON, DIGIT_0, DIGIT_9,
    DOLLAR, DOT, EQUAL, HASH, LEFT_BRACE, LOWER_A, LOWER_E, LOWER_Z, MINUS, NEWLINE, PLUS, QUOTE,
    RETURN, RIGHT_BRACE, SEMICOLON, SLASH, SPACE, TAB, UNDERSCORE, UPPER_A, UPPER_E, UPPER_Z,
};
use crate::text::{
    ascii, boundary, lemma_ascii_bytes, lemma_boundary_is_char_boundary, slice, text,
};
use vstd::prelude::*;
use vstd::string::*;
use vstd::utf8::*;

verus! {

/// A token: its kind, the byte offsets of its first byte and of the byte
/// after its last, and the number of the line that it starts on.
///
/// A token holds no text. The text of an identifier, a number or a string
/// is the part of the source that its offsets delimit; for a string they
/// leave the two quotes out.
#[derive(Debug, Clone, Copy, PartialEq, Eq)]
pub enum Token {
    True(usize, usize, usize),
    False(usize, usize, usize),
    Null(usize, usize, usize),
    Equal(usize, usize, usize),
    Semicolon(usize, usize, usize),
    LeftBrace(usize, usize, usize),
    RightBrace(usize, usize, usize),
    /// Input that is no token of the language, with the reason.
    Error(&'static str, usize, usize, usize),
    String(usize, usize, usize),
    Identifier(usize, usize, usize),
    Float64(usize, usize, usize),
    Integer(usize, usize, usize),
    /// The end of the input.
    Eof,
}

impl Token {
    /// The offsets and the line of a token; three zeros for `Eof`.
    pub open spec fn span(self) -> (usize, usize, usize) {
        match self {
            Token::True(s, e, l)
            | Token::False(s, e, l)
            | Token::Null(s, e, l)
            | Token::Equal(s, e, l)
            | Token::Semicolon(s, e, l)
            | Token::LeftBrace(s, e, l)
            | Token::RightBrace(s, e, l)
            | Token::String(s, e, l)
            | Token::Identifier(s, e, l)
            | Token::Float64(s, e, l)
            | Token::Integer(s, e, l)
            | Token::Error(_, s, e, l) => (s, e, l),
            Token::Eof => (0, 0, 0),
        }
    }

    /// The start offset, the end offset and the line of the token.
    pub fn position(&self) -> (r: (usize, usize, usize))
        ensures
            r == self.span(),
    {
        match self {
            Token::True(s, e, l)
            | Token::False(s, e, l)
            | Token::Null(s, e, l)
            | Token::Equal(s, e, l)
            | Token::Semicolon(s, e, l)
            | Token::LeftBrace(s, e, l)
            | Token::RightBrace(s, e, l)
            | Token::String(s, e, l)
            | Token::Identifier(s, e, l)
            | Token::Float64(s, e, l)
            | Token::Integer(s, e, l)
            | Token::Error(_, s, e, l) => (*s, *e, *l),
            Token::Eof => (0, 0, 0),
        }
    }
}

/// A scanner over a source text. It keeps the position that it has reached
/// and the line that this position is on.
pub struct Scanner<'a> {
    source: &'a str,
    /// Where the token that is being scanned starts, and its line.
    start: usize,
    start_line: usize,
    /// The first byte that has not been consumed, and its line.
    current: usize,
    line: usize,
}

impl<'a> Scanner<'a> {
    /// The bytes of the source text.
    pub closed spec fn bytes(&self) -> Seq<u8> {
        self.source.spec_bytes()
    }

    /// The offset of the first byte that the scanner has not consumed.
    pub closed spec fn position(&self) -> int {
        self.current as int
    }

    /// What holds of the scanner at any time: its position is inside the
    /// source and its line is the line of that position.
    spec fn steady(&self) -> bool {
        &&& self.current <= self.bytes().len() < usize::MAX
        &&& self.line == line_at(self.bytes(), self.current as int)
    }

    /// What holds between two tokens: in addition, the position is between
    /// two characters.
    pub closed spec fn wf(&self) -> bool {
        &&& self.steady()
        &&& boundary(self.bytes(), self.current as int)
    }

    /// What holds while a token is scanned: in addition, the start of the
    /// token and its line are recorded.
    spec fn marked(&self) -> bool {
        &&& self.steady()
        &&& self.start <= self.current
        &&& self.start_line == line_at(self.bytes(), self.start as int)
    }

    /// Whether `other` has consumed more of the same source, inside the
    /// same token.
    spec fn moved_to(&self, other: &Self, current: int) -> bool {
        &&& other.source == self.source
        &&& other.start == self.start
        &&& other.start_line == self.start_line
        &&& other.current == current
    }

    /// What a well-formed scanner stands on: a source of valid UTF-8 that
    /// is shorter than the largest offset, and a position in it between
    /// two characters.
    pub proof fn lemma_wf(&self)
        requires
            self.wf(),
        ensures
            valid_utf8(self.bytes()),
            self.bytes().len() < usize::MAX,
            boundary(self.bytes(), self.position()),
    {
        encode_utf8_valid_utf8(self.source@);
    }

    /// A scanner at the start of `source`.
    pub fn new(source: &'a str) -> (s: Self)
        requires
            source.spec_bytes().len() < usize::MAX,
        ensures
            s.wf(),
            s.bytes() == source.spec_bytes(),
            s.position() == 0,
    {
        proof {
            if source.spec_bytes().len() > 0 {
                encode_utf8_valid_utf8(source@);
                is_char_boundary_start_end_of_seq(source.spec_bytes());
                lemma_boundary_is_char_boundary(source.spec_bytes(), 0);
            }
        }
        Scanner { source, start: 0, start_line: 1, current: 0, line: 1 }
    }

    /// The length of the source in bytes.
    pub fn source_length(&self) -> (n: usize)
        ensures
            n == self.bytes().len(),
    {
        self.source.as_bytes().len()
    }

    /// The line that the scanner has reached, counted from 1.
    pub fn current_line(&self) -> (n: usize)
        requires
            self.wf(),
        ensures
            n == line_at(self.bytes(), self.position()),
    {
        self.line
    }

    /// The byte at the current position, if there is one.
    fn peek(&self) -> (r: Option<u8>)
        requires
            self.steady(),
        ensures
            r == if self.current < self.bytes().len() {
                Some(self.bytes()[self.current as int])
            } else {
                None
            },
    {
        let bytes = self.source.as_bytes();
        if self.current < bytes.len() {
            Some(bytes[self.current])
        } else {
            None
        }
    }

    /// The byte after the one at the current position, if there is one.
    fn peek_next(&self) -> (r: Option<u8>)
        requires
            self.steady(),
        ensures
            r == if self.current + 1 < self.bytes().len() {
                Some(self.bytes()[self.current + 1])
            } else {
                None
            },
    {
        let bytes = self.source.as_bytes();
        if self.current < bytes.len() && self.current + 1 < bytes.len() {
            Some(bytes[self.current + 1])
        } else {
            None
        }
    }

    /// Consumes one byte and returns it; at the end of the source nothing
    /// changes.
    fn advance(&mut self) -> (r: Option<u8>)
        requires
            old(self).steady(),
        ensures
            final(self).steady(),
            old(self).current < old(self).bytes().len() ==> r == Some(
                old(self).bytes()[old(self).current as int],
            ) && old(self).moved_to(final(self), old(self).current + 1),
            old(self).current >= old(self).bytes().len() ==> r.is_none() && *final(self) == *old(
                self,
            ),
    {
        let bytes = self.source.as_bytes();
        if self.current < bytes.len() {
            let b = bytes[self.current];
            proof {
                lemma_newlines_bound(self.bytes(), self.current as int);
            }
            if b == NEWLINE {
                self.line = self.line + 1;
            }
            self.current = self.current + 1;
            Some(b)
        } else {
            None
        }
    }

    /// Whether `b` is an ASCII letter.
    fn is_letter(b: u8) -> (r: bool)
        ensures
            r == is_alpha(b),
    {
        (UPPER_A <= b && b <= UPPER_Z) || (LOWER_A <= b && b <= LOWER_Z)
    }

    /// Whether `chr` is a byte that may stand inside an identifier.
    fn is_valid_char(chr: Option<u8>) -> (r: bool)
        ensures
            r == (chr matches Some(b) && is_name_byte(b)),
    {
        match chr {
            Some(b) => Self::is_letter(b) || (DIGIT_0 <= b && b <= DIGIT_9) || b == UNDERSCORE
                || b == COLON || b == DOLLAR || b == MINUS,
            None => false,
        }
    }

    /// Whether `chr` is a decimal digit.
    fn is_digit(chr: Option<u8>) -> (r: bool)
        ensures
            r == (chr matches Some(b) && is_digit(b)),
    {
        match chr {
            Some(b) => DIGIT_0 <= b && b <= DIGIT_9,
            None => false,
        }
    }

    /// Whether `b` belongs to a run of kind `run`.
    fn belongs(run: Run, b: u8) -> (r: bool)
        ensures
            r == in_run(run, b),
    {
        match run {
            Run::Name => Self::is_valid_char(Some(b)),
            Run::Digits => Self::is_digit(Some(b)),
            Run::Quoted => b != QUOTE,
            Run::Continuation => 0x80 <= b && b <= 0xbf,
            Run::Line => b != NEWLINE,
        }
    }

    /// Consumes bytes as long as they belong to `run`.
    fn consume(&mut self, run: Run)
        requires
            old(self).steady(),
        ensures
            final(self).steady(),
            old(self).moved_to(
                final(self),
                run_end(old(self).bytes(), old(self).current as int, run),
            ),
    {
        let ghost src = self.bytes();
        let ghost from = self.current as int;
        loop
            invariant
                self.steady(),
                old(self).moved_to(self, self.current as int),
                from <= self.current,
                src == self.bytes(),
                run_end(src, from, run) == run_end(src, self.current as int, run),
            ensures
                self.current == run_end(src, from, run),
            decreases src.len() - self.current,
        {
            match self.peek() {
                Some(b) => {
                    if Self::belongs(run, b) {
                        self.advance();
                    } else {
                        break ;
                    }
                },
                None => {
                    break ;
                },
            }
        }
    }

    /// Consumes blanks and comments, each comment through the end of its
    /// line.
    fn skip_whitespace(&mut self)
        requires
            old(self).steady(),
        ensures
            final(self).steady(),
            old(self).moved_to(
                final(self),
                skip_trivia(old(self).bytes(), old(self).current as int),
            ),
    {
        let ghost src = self.bytes();
        let ghost from = self.current as int;
        loop
            invariant
                self.steady(),
                old(self).moved_to(self, self.current as int),
                from <= self.current,
                src == self.bytes(),
                skip_trivia(src, from) == skip_trivia(src, self.current as int),
            ensures
                self.current == skip_trivia(src, from),
            decreases src.len() - self.current,
        {
            match self.peek() {
                Some(b) => {
                    if b == SPACE || b == TAB || b == RETURN || b == NEWLINE {
                        self.advance();
                    } else if b == HASH || ((b == SLASH || b == MINUS) && self.peek_next() == Some(
                        b,
                    )) {
                        self.advance();
                        proof {
                            lemma_run_end_bounds(src, self.current as int, Run::Line);
                        }
                        self.consume(Run::Line);
                    } else {
                        break ;
                    }
                },
                None => {
                    break ;
                },
            }
        }
    }

    /// The offsets and the line of what has been consumed of the token
    /// that is being scanned.
    fn range(&self) -> (r: (usize, usize, usize))
        requires
            self.marked(),
        ensures
            r == (self.start, self.current, self.start_line),
    {
        (self.start, self.current, self.start_line)
    }

    /// An error token for what has been consumed of the token that is
    /// being scanned.
    fn make_error(&self, msg: &'static str) -> (r: Token)
        requires
            self.marked(),
        ensures
            r == Token::Error(msg, self.start, self.current, self.start_line),
    {
        let (start, end, line) = self.range();
        Token::Error(msg, start, end, line)
    }

    /// Whether the bytes of the source from `start` up to `end` are those
    /// of `word`.
    fn matches_source(&self, start: usize, end: usize, word: &str) -> (r: bool)
        requires
            start <= end <= self.bytes().len(),
        ensures
            r == (self.bytes().subrange(start as int, end as int) == word.spec_bytes()),
    {
        let bytes = self.source.as_bytes();
        let letters = word.as_bytes();
        if end - start != letters.len() {
            return false;
        }
        let mut i: usize = 0;
        while i < letters.len()
            invariant
                i <= letters.len(),
                start + letters.len() == end <= bytes.len(),
                bytes@ == self.bytes(),
                letters@ == word.spec_bytes(),
                forall|j: int| 0 <= j < i ==> bytes@[start + j] == letters@[j],
            decreases letters.len() - i,
        {
            if bytes[start + i] != letters[i] {
                assert(self.bytes().subrange(start as int, end as int)[i as int]
                    != word.spec_bytes()[i as int]);
                return false;
            }
            i = i + 1;
        }
        assert(self.bytes().subrange(start as int, end as int) =~= word.spec_bytes());
        true
    }

    /// The keyword or identifier that has been consumed.
    fn try_keyword(&self) -> (r: Token)
        requires
            self.marked(),
        ensures
            r == word_token(
                self.bytes(),
                self.start as int,
                self.current as int,
                self.start_line as nat,
            ),
    {
        let (start, end, line) = self.range();
        proof {
            reveal_strlit("true");
            reveal_strlit("false");
            reveal_strlit("null");
            lemma_ascii_bytes("true"@);
            lemma_ascii_bytes("false"@);
            lemma_ascii_bytes("null"@);
            assert(ascii("true"@) =~= word_true());
            assert(ascii("false"@) =~= word_false());
            assert(ascii("null"@) =~= word_null());
        }
        if self.matches_source(start, end, "true") {
            Token::True(start, end, line)
        } else if self.matches_source(start, end, "false") {
            Token::False(start, end, line)
        } else if self.matches_source(start, end, "null") {
            Token::Null(start, end, line)
        } else {
            Token::Identifier(start, end, line)
        }
    }

    /// Scans the rest of a word, whose first letter has been consumed.
    fn identifier(&mut self) -> (r: Token)
        requires
            old(self).marked(),
            old(self).current == old(self).start + 1,
        ensures
            final(self).steady(),
            old(self).moved_to(final(self), word(old(self).bytes(), old(self).start as int).end),
            r == word(old(self).bytes(), old(self).start as int).token,
    {
        proof {
            lemma_run_end_bounds(self.bytes(), self.current as int, Run::Name);
        }
        self.consume(Run::Name);
        self.try_keyword()
    }

    /// Scans the rest of a number with a fraction, up to whose dot the
    /// input has been consumed.
    fn float(&mut self) -> (r: Token)
        requires
            old(self).marked(),
            old(self).start < old(self).current < old(self).bytes().len(),
            is_digit(old(self).bytes()[old(self).start as int]),
            old(self).current == run_end(old(self).bytes(), old(self).start as int, Run::Digits),
            old(self).bytes()[old(self).current as int] == DOT,
        ensures
            final(self).steady(),
            old(self).moved_to(final(self), number(old(self).bytes(), old(self).start as int).end),
            r == number(old(self).bytes(), old(self).start as int).token,
    {
        let ghost src = self.bytes();
        self.advance();
        if !Self::is_digit(self.peek()) {
            return self.make_error("'.' must be followed by digit.");
        }
        proof {
            lemma_run_end_bounds(src, self.current as int, Run::Digits);
        }
        self.consume(Run::Digits);
        let exponent = match self.peek() {
            Some(b) => b == LOWER_E || b == UPPER_E,
            None => false,
        };
        if exponent {
            self.advance();
            let signed = match self.peek() {
                Some(b) => b == PLUS || b == MINUS,
                None => false,
            };
            if signed {
                self.advance();
            }
            if !Self::is_digit(self.peek()) {
                return self.make_error("Illegal float.");
            }
            proof {
                lemma_run_end_bounds(src, self.current as int, Run::Digits);
            }
            self.consume(Run::Digits);
        }
        let (start, end, line) = self.range();
        Token::Float64(start, end, line)
    }

    /// Scans the rest of a number, whose first digit has been consumed.
    fn number(&mut self) -> (r: Token)
        requires
            old(self).marked(),
            old(self).current == old(self).start + 1,
            is_digit(old(self).bytes()[old(self).start as int]),
        ensures
            final(self).steady(),
            old(self).moved_to(final(self), number(old(self).bytes(), old(self).start as int).end),
            r == number(old(self).bytes(), old(self).start as int).token,
    {
        proof {
            lemma_run_end_bounds(self.bytes(), self.current as int, Run::Digits);
        }
        self.consume(Run::Digits);
        let (start, end, line) = self.range();
        let dot = match self.peek() {
            Some(b) => b == DOT,
            None => false,
        };
        if dot {
            self.float()
        } else {
            Token::Integer(start, end, line)
        }
    }

    /// Scans the rest of a string, whose opening quote has been consumed.
    fn string(&mut self) -> (r: Token)
        requires
            old(self).marked(),
            old(self).current == old(self).start + 1,
        ensures
            final(self).steady(),
            old(self).moved_to(final(self), string(old(self).bytes(), old(self).start as int).end),
            r == string(old(self).bytes(), old(self).start as int).token,
    {
        proof {
            lemma_run_end_bounds(self.bytes(), self.current as int, Run::Quoted);
        }
        self.consume(Run::Quoted);
        match self.advance() {
            None => self.make_error("Unterminated string."),
            Some(_) => {
                let (start, end, line) = self.range();
                Token::String(start + 1, end - 1, line)
            },
        }
    }

    /// The text of the source from byte `start` up to byte `end`, both of
    /// which lie between two characters.
    pub fn source_slice(&self, start: usize, end: usize) -> (r: &'a str)
        requires
            start <= end,
            boundary(self.bytes(), start as int),
            boundary(self.bytes(), end as int),
        ensures
            r.spec_bytes() == self.bytes().subrange(start as int, end as int),
            r@ == text(self.bytes(), start as int, end as int),
    {
        slice(self.source, start, end)
    }

    /// Skips blanks and comments, then consumes one token and returns it,
    /// or returns `None` at the end of the source.
    ///
    /// Input that is no token of the language is returned as an `Error`
    /// token, and scanning goes on after it with the next call.
    pub fn scan_token(&mut self) -> (r: Option<Token>)
        requires
            old(self).wf(),
        ensures
            final(self).wf(),
            final(self).bytes() == old(self).bytes(),
            r == scan(old(self).bytes(), old(self).position()).token,
            final(self).position() == scan(old(self).bytes(), old(self).position()).pos,
    {
        let ghost src = self.bytes();
        proof {
            encode_utf8_valid_utf8(self.source@);
            lemma_scan_boundary(src, self.current as int);
            lemma_skip_trivia_bounds(src, self.current as int);
        }
        self.skip_whitespace();
        self.start = self.current;
        self.start_line = self.line;
        match self.advance() {
            Some(b) => {
                if Self::is_letter(b) {
                    return Some(self.identifier());
                }
                if Self::is_digit(Some(b)) {
                    return Some(self.number());
                }
                let (start, end, line) = self.range();
                if b == QUOTE {
                    Some(self.string())
                } else if b == EQUAL {
                    Some(Token::Equal(start, end, line))
                } else if b == SEMICOLON {
                    Some(Token::Semicolon(start, end, line))
                } else if b == LEFT_BRACE {
                    Some(Token::LeftBrace(start, end, line))
                } else if b == RIGHT_BRACE {
                    Some(Token::RightBrace(start, end, line))
                } else {
                    proof {
                        lemma_run_end_bounds(src, self.current as int, Run::Continuation);
                    }
                    self.consume(Run::Continuation);
                    Some(self.make_error("Unexpected character."))
                }
            },
            None => None,
        }
    }
}

} // verus!
