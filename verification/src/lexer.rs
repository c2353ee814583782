//! The lexer of the extended pattern syntax, with groups and back references.

use crate::tokens::{
    closing, curly, decimal, digits_end, is_digit, lexed, offset_at, token_at, tokens_from,
    toks_view, TokView, BAD_ESCAPE, BOUNDS_REVERSED, CLASS_NOT_CLOSED, DIGITS, EMPTY_CLASS,
    EMPTY_GROUP, END_OF_INPUT, EQUAL_BOUNDS, GROUP_NOT_CLOSED, LOWERCASE_ALPHABET, LOWERCASE_HEX,
    NO_NUMBER, NO_SECOND_NUMBER, RANGE_NOT_CLOSED, REPETITION_NOT_CLOSED, STRAY_BRACKET,
    STRAY_CURLY, STRAY_PAREN, UPPERCASE_ALPHABET, UPPERCASE_HEX,
};
pub use crate::tokens::{Failure, LexErr, Tok};
use vstd::prelude::*;
use vstd::std_specs::iter::IteratorSpec;
use vstd::utf8::{encode_scalar, encode_utf8};

verus! {

impl LexErr {
    pub fn new(msg: &'static str, offset: usize) -> (e: LexErr)
        ensures
            e == (LexErr { msg, offset }),
    {
        LexErr { msg, offset }
    }
}

/// The encoding of two pieces of text is the encoding of the first, then
/// that of the second.
pub proof fn lemma_encode_concat(a: Seq<char>, b: Seq<char>)
    ensures
        encode_utf8(a + b) == encode_utf8(a) + encode_utf8(b),
    decreases a.len(),
{
    if a.len() == 0 {
        assert(a + b =~= b);
        assert(encode_utf8(a) + encode_utf8(b) =~= encode_utf8(b));
    } else {
        lemma_encode_concat(a.drop_first(), b);
        assert((a + b).drop_first() =~= a.drop_first() + b);
        assert(encode_utf8(a + b) =~= encode_utf8(a) + encode_utf8(b));
    }
}

/// Byte offsets grow with the index, by the width of each character, and
/// the offset of a later index is the offset of an earlier one plus the
/// bytes of what lies between.
pub proof fn lemma_offset_split(chars: Seq<char>, i: int, j: int)
    requires
        0 <= i <= j <= chars.len(),
    ensures
        offset_at(chars, j) == offset_at(chars, i) + encode_utf8(chars.subrange(i, j)).len(),
{
    assert(chars.take(j) =~= chars.take(i) + chars.subrange(i, j));
    lemma_encode_concat(chars.take(i), chars.subrange(i, j));
}

/// The offset after a character is the offset before it plus its width.
pub proof fn lemma_offset_step(chars: Seq<char>, i: int)
    requires
        0 <= i < chars.len(),
    ensures
        offset_at(chars, i + 1) == offset_at(chars, i) + encode_scalar(chars[i] as u32).len(),
        offset_at(chars, i + 1) <= offset_at(chars, chars.len() as int),
        1 <= encode_scalar(chars[i] as u32).len() <= 4,
{
    lemma_offset_split(chars, i, i + 1);
    lemma_offset_split(chars, i + 1, chars.len() as int);
    vstd::utf8::char_is_scalar(chars[i]);
    let one = chars.subrange(i, i + 1);
    assert(one.drop_first() =~= Seq::<char>::empty());
    assert(encode_utf8(one.drop_first()) =~= Seq::<u8>::empty());
    assert(one[0] == chars[i]);
    assert(encode_utf8(one) =~= encode_scalar(chars[i] as u32));
}

/// The digits `chars[from..k]` are part of the number that starts at `from`.
proof fn lemma_digits_extend(chars: Seq<char>, from: int, k: int)
    requires
        0 <= from <= k <= chars.len(),
        forall|i: int| from <= i < k ==> is_digit(chars[i]),
    ensures
        digits_end(chars, from) == digits_end(chars, k),
    decreases k - from,
{
    if from < k {
        lemma_digits_extend(chars, from + 1, k);
    }
}

/// More digits never write a smaller number.
proof fn lemma_decimal_grows(chars: Seq<char>, from: int, mid: int, to: int)
    requires
        from <= mid <= to,
        forall|i: int| from <= i < to ==> is_digit(chars[i]),
    ensures
        decimal(chars, from, mid) <= decimal(chars, from, to),
    decreases to - mid,
{
    if mid < to {
        lemma_decimal_grows(chars, from, mid, to - 1);
    }
}

/// The number of bytes that `c` takes in UTF-8.
fn utf8_width(c: char) -> (w: usize)
    ensures
        w == encode_scalar(c as u32).len(),
{
    proof {
        vstd::utf8::char_is_scalar(c);
    }
    let v = c as u32;
    if v <= 0x7F {
        1
    } else if v <= 0x7FF {
        2
    } else if v <= 0xFFFF {
        3
    } else {
        4
    }
}

fn digit(c: char) -> (d: bool)
    ensures
        d == is_digit(c),
{
    c >= '0' && c <= '9'
}

/// The characters of `src`.
fn chars_of(src: &str) -> (chars: Vec<char>)
    ensures
        chars@ == src@,
{
    broadcast use vstd::string::group_string_axioms;

    let mut chars: Vec<char> = Vec::new();
    for c in it: src.chars()
        invariant
            it.seq() == src@,
            chars@ == it.seq().take(it.index() as int),
    {
        chars.push(c);
        assert(chars@ =~= it.seq().take(it.index() + 1));
    }
    assert(chars@ =~= src@);
    chars
}

/// Reads a pattern token by token.
pub struct Lexer<'src> {
    src: &'src str,
    chars: Vec<char>,
    /// The index of the next character to read.
    pos: usize,
    /// The byte offset of that character in the whole pattern.
    offset: usize,
    /// The byte offset at which `src` starts in the whole pattern.
    base: usize,
}

impl<'src> Lexer<'src> {
    /// The pattern.
    pub closed spec fn pattern(&self) -> Seq<char> {
        self.chars@
    }

    /// The index of the next character to read.
    pub closed spec fn position(&self) -> int {
        self.pos as int
    }

    /// The byte offset at which the pattern starts in the whole pattern.
    pub closed spec fn origin(&self) -> nat {
        self.base as nat
    }

    /// The lexer's fields agree with each other.
    pub closed spec fn wf(&self) -> bool {
        &&& self.chars@ == self.src@
        &&& self.pos <= self.chars@.len()
        &&& self.offset == self.base + offset_at(self.chars@, self.pos as int)
        &&& self.base + offset_at(self.chars@, self.chars@.len() as int) <= usize::MAX
    }

    /// The same pattern, possibly further on.
    pub open spec fn advanced(&self, before: &Self) -> bool {
        &&& self.wf()
        &&& self.pattern() == before.pattern()
        &&& self.origin() == before.origin()
        &&& self.position() >= before.position()
    }

    /// What is left to lex.
    pub open spec fn rest(&self) -> Result<Seq<TokView>, Failure> {
        tokens_from(self.pattern(), self.position(), self.origin(), Seq::empty())
    }

    /// Create a new Lexer from a &str
    pub fn new(src: &'src str) -> (lexer: Self)
        ensures
            lexer.wf(),
            lexer.pattern() == src@,
            lexer.position() == 0,
            lexer.origin() == 0,
            lexer.rest() == lexed(src@),
    {
        let size = src.as_bytes().len();
        let lexer = Self::at(src, 0);
        lexer
    }

    /// A lexer for `src`, which starts at byte `base` of the whole pattern.
    fn at(src: &'src str, base: usize) -> (lexer: Self)
        requires
            base + encode_utf8(src@).len() <= usize::MAX,
        ensures
            lexer.wf(),
            lexer.pattern() == src@,
            lexer.position() == 0,
            lexer.origin() == base,
    {
        let chars = chars_of(src);
        proof {
            assert(chars@.take(0) =~= Seq::<char>::empty());
            assert(chars@.take(chars@.len() as int) =~= chars@);
        }
        Lexer { src, chars, pos: 0, offset: base, base }
    }

    /// Lexes the whole pattern: its tokens, or the first error with the byte
    /// offset of the token at fault. The pattern must hold no number that is
    /// too large for a `usize`.
    pub fn parse(self) -> (r: Result<Vec<Tok>, LexErr>)
        requires
            self.wf(),
            self.rest() != Err::<Seq<TokView>, Failure>(Failure::Overflow),
        ensures
            match (r, self.rest()) {
                (Ok(toks), Ok(expected)) => toks_view(toks@) == expected,
                (Err(e), Err(expected)) => expected == Failure::Error(e),
                _ => false,
            },
    {
        match self.try_parse() {
            Ok(toks) => Ok(toks),
            Err(Failure::Error(e)) => Err(e),
            Err(Failure::Overflow) => {
                assert(false);
                Ok(Vec::new())
            },
        }
    }

    /// Lexes the whole pattern: its tokens, or how lexing failed. A number
    /// that is too large for a `usize` is a failure of its own.
    pub fn try_parse(self) -> (r: Result<Vec<Tok>, Failure>)
        requires
            self.wf(),
        ensures
            match (r, self.rest()) {
                (Ok(toks), Ok(expected)) => toks_view(toks@) == expected,
                (Err(failure), Err(expected)) => failure == expected,
                _ => false,
            },
        decreases self.pattern().len(), 3nat,
    {
        let mut lexer = self;
        let mut toks: Vec<Tok> = Vec::new();
        assert(toks_view(toks@) =~= Seq::<TokView>::empty());
        loop
            invariant
                lexer.advanced(&self),
                self.rest() == tokens_from(
                    lexer.pattern(),
                    lexer.position(),
                    lexer.origin(),
                    toks_view(toks@),
                ),
            ensures
                self.rest() == Ok::<Seq<TokView>, Failure>(toks_view(toks@)),
            decreases lexer.pattern().len() - lexer.position(),
        {
            let ghost before = toks_view(toks@);
            match lexer.next_token() {
                None => {
                    break ;
                },
                Some(Err(failure)) => {
                    return Err(failure);
                },
                Some(Ok(tok)) => {
                    toks.push(tok);
                    assert(toks_view(toks@) =~= before.push(tok@));
                },
            }
        }
        Ok(toks)
    }

    /// Takes the next character.
    fn bump(&mut self) -> (c: char)
        requires
            old(self).wf(),
            old(self).position() < old(self).pattern().len(),
        ensures
            final(self).advanced(old(self)),
            final(self).position() == old(self).position() + 1,
            c == old(self).pattern()[old(self).position()],
    {
        let size = self.chars.len();
        let c = self.chars[self.pos];
        proof {
            lemma_offset_step(self.chars@, self.pos as int);
        }
        self.offset += utf8_width(c);
        self.pos += 1;
        c
    }

    /// Peeks character, then consumes it if it matches, returning
    /// true on success and false on failure
    fn eat_if(&mut self, c: char) -> (eaten: bool)
        requires
            old(self).wf(),
        ensures
            final(self).advanced(old(self)),
            eaten == (old(self).position() < old(self).pattern().len() && old(
                self,
            ).pattern()[old(self).position()] == c),
            final(self).position() == old(self).position() + if eaten {
                1int
            } else {
                0int
            },
    {
        if self.pos < self.chars.len() && self.chars[self.pos] == c {
            self.bump();
            true
        } else {
            false
        }
    }

    /// Takes the next character. If it is a digit, reads the number that it
    /// starts: `Some` of the number, or `Some` of `None` where the number is
    /// too large for a `usize`.
    fn consuming_eat_if_digit(&mut self) -> (n: Option<Option<usize>>)
        requires
            old(self).wf(),
        ensures
            final(self).advanced(old(self)),
            n is Some <==> old(self).position() < old(self).pattern().len() && is_digit(
                old(self).pattern()[old(self).position()],
            ),
            n is Some ==> final(self).position() == digits_end(
                old(self).pattern(),
                old(self).position(),
            ),
            n matches Some(value) ==> (value is Some <==> decimal(
                old(self).pattern(),
                old(self).position(),
                final(self).position(),
            ) <= usize::MAX),
            n matches Some(Some(value)) ==> value == decimal(
                old(self).pattern(),
                old(self).position(),
                final(self).position(),
            ),
    {
        if self.pos < self.chars.len() {
            let start = self.pos;
            let c = self.bump();
            if digit(c) {
                Some(self.number(start))
            } else {
                None
            }
        } else {
            None
        }
    }

    /// Takes the digits that follow the digit at `start`, which was read
    /// last, and gives the number that all of them write, unless it is too
    /// large for a `usize`.
    fn number(&mut self, start: usize) -> (value: Option<usize>)
        requires
            old(self).wf(),
            old(self).position() == start + 1,
            is_digit(old(self).pattern()[start as int]),
        ensures
            final(self).advanced(old(self)),
            final(self).position() == digits_end(old(self).pattern(), start as int),
            value is Some <==> decimal(old(self).pattern(), start as int, final(self).position())
                <= usize::MAX,
            value matches Some(v) ==> v == decimal(
                old(self).pattern(),
                start as int,
                final(self).position(),
            ),
    {
        while self.pos < self.chars.len() && digit(self.chars[self.pos])
            invariant
                self.advanced(old(self)),
                start < self.position() <= self.pattern().len(),
                forall|i: int| start <= i < self.position() ==> is_digit(self.pattern()[i]),
            decreases self.pattern().len() - self.position(),
        {
            self.bump();
        }
        proof {
            lemma_digits_extend(self.pattern(), start as int, self.position());
        }
        let mut acc: usize = 0;
        let mut i: usize = start;
        while i < self.pos
            invariant
                self.advanced(old(self)),
                self.position() == digits_end(old(self).pattern(), start as int),
                start <= i <= self.position() <= self.pattern().len(),
                forall|k: int| start <= k < self.position() ==> is_digit(self.pattern()[k]),
                acc == decimal(self.pattern(), start as int, i as int),
            decreases self.position() - i,
        {
            proof {
                lemma_decimal_grows(self.pattern(), start as int, i + 1, self.position());
            }
            let d = (self.chars[i] as u32 - '0' as u32) as usize;
            let scaled = match acc.checked_mul(10) {
                Some(v) => v,
                None => {
                    return None;
                },
            };
            acc = match scaled.checked_add(d) {
                Some(v) => v,
                None => {
                    return None;
                },
            };
            i += 1;
        }
        Some(acc)
    }

    /// Reads what follows the backslash at byte `i`.
    fn backslash(&mut self, i: usize) -> (r: Result<Tok, Failure>)
        requires
            old(self).wf(),
            old(self).position() >= 1,
            old(self).pattern()[old(self).position() - 1] == '\\',
            i == old(self).origin() + offset_at(old(self).pattern(), old(self).position() - 1),
        ensures
            final(self).advanced(old(self)),
            match (r, token_at(old(self).pattern(), old(self).position() - 1, old(self).origin())) {
                (Ok(tok), Ok(lexeme)) => tok@ == lexeme.token && final(self).position() == old(
                    self,
                ).position() + lexeme.extra,
                (Err(failure), Err(expected)) => failure == expected,
                _ => false,
            },
    {
        if self.pos >= self.chars.len() {
            return Err(Failure::Error(LexErr::new(END_OF_INPUT, i)));
        }
        let start = self.pos;
        let c = self.bump();
        if c == 'd' {
            Ok(Tok::Class(DIGITS.to_owned()))
        } else if c == 'A' {
            Ok(Tok::Class(UPPERCASE_ALPHABET.to_owned()))
        } else if c == 'a' {
            Ok(Tok::Class(LOWERCASE_ALPHABET.to_owned()))
        } else if c == 'H' {
            Ok(Tok::Class(UPPERCASE_HEX.to_owned()))
        } else if c == 'h' {
            Ok(Tok::Class(LOWERCASE_HEX.to_owned()))
        } else if c == '\\' || c == '(' || c == ')' || c == '[' || c == ']' || c == '{' || c
            == '}' {
            Ok(Tok::Char(c))
        } else if digit(c) {
            proof {
                lemma_digits_extend(self.pattern(), start as int, start + 1);
            }
            match self.number(start) {
                Some(n) => Ok(Tok::BackRef(n)),
                None => Err(Failure::Overflow),
            }
        } else {
            Err(Failure::Error(LexErr::new(BAD_ESCAPE, i)))
        }
    }

    /// Returns a range or repeat token
    fn left_curly(&mut self, i: usize) -> (r: Result<Tok, Failure>)
        requires
            old(self).wf(),
            old(self).position() >= 1,
        ensures
            final(self).advanced(old(self)),
            match (r, curly(old(self).pattern(), old(self).position() - 1, i as int)) {
                (Ok(tok), Ok(lexeme)) => tok@ == lexeme.token && final(self).position() == old(
                    self,
                ).position() + lexeme.extra,
                (Err(failure), Err(expected)) => failure == expected,
                _ => false,
            },
    {
        let lower = match self.consuming_eat_if_digit() {
            Some(Some(n)) => n,
            Some(None) => {
                return Err(Failure::Overflow);
            },
            None => {
                return Err(Failure::Error(LexErr::new(NO_NUMBER, i)));
            },
        };
        if self.eat_if(',') {
            let upper = match self.consuming_eat_if_digit() {
                Some(Some(n)) => n,
                Some(None) => {
                    return Err(Failure::Overflow);
                },
                None => {
                    return Err(Failure::Error(LexErr::new(NO_SECOND_NUMBER, i)));
                },
            };
            if self.eat_if('}') {
                if lower < upper {
                    Ok(Tok::Range(lower, upper))
                } else if lower == upper {
                    Err(Failure::Error(LexErr::new(EQUAL_BOUNDS, i)))
                } else {
                    Err(Failure::Error(LexErr::new(BOUNDS_REVERSED, i)))
                }
            } else {
                Err(Failure::Error(LexErr::new(RANGE_NOT_CLOSED, i)))
            }
        } else if self.eat_if('}') {
            Ok(Tok::Repeat(lower))
        } else {
            Err(Failure::Error(LexErr::new(REPETITION_NOT_CLOSED, i)))
        }
    }

    /// Takes characters up to and with the `close` that ends what the `open`
    /// read last began, and gives its index; `None` where there is none.
    fn skip_to_closing(&mut self, open: char, close: char) -> (end: Option<usize>)
        requires
            old(self).wf(),
            old(self).position() >= 1,
        ensures
            final(self).advanced(old(self)),
            end is Some <==> closing(old(self).pattern(), old(self).position(), 1, open, close)
                is Some,
            end matches Some(j) ==> closing(
                old(self).pattern(),
                old(self).position(),
                1,
                open,
                close,
            ) == Some(j as int) && old(self).position() <= j < old(self).pattern().len()
                && final(self).position() == j + 1,
    {
        let mut depth: usize = 1;
        while self.pos < self.chars.len()
            invariant
                self.advanced(old(self)),
                depth >= 1,
                depth <= self.position(),
                closing(old(self).pattern(), old(self).position(), 1, open, close) == closing(
                    self.pattern(),
                    self.position(),
                    depth as nat,
                    open,
                    close,
                ),
            decreases self.pattern().len() - self.position(),
        {
            let j = self.pos;
            let c = self.bump();
            if c == open {
                depth += 1;
            } else if c == close {
                depth -= 1;
                if depth == 0 {
                    return Some(j);
                }
            }
        }
        None
    }

    /// Returns a character class; brackets within the class must be balanced.
    fn left_bracket(&mut self, i: usize) -> (r: Result<Tok, Failure>)
        requires
            old(self).wf(),
            old(self).position() >= 1,
            old(self).pattern()[old(self).position() - 1] == '[',
            i == old(self).origin() + offset_at(old(self).pattern(), old(self).position() - 1),
        ensures
            final(self).advanced(old(self)),
            match (r, token_at(old(self).pattern(), old(self).position() - 1, old(self).origin())) {
                (Ok(tok), Ok(lexeme)) => tok@ == lexeme.token && final(self).position() == old(
                    self,
                ).position() + lexeme.extra,
                (Err(failure), Err(expected)) => failure == expected,
                _ => false,
            },
    {
        let start = self.pos;
        match self.skip_to_closing('[', ']') {
            Some(j) => {
                if j > start {
                    let content = self.src.substring_char(start, j);
                    Ok(Tok::Class(content.to_owned()))
                } else {
                    Err(Failure::Error(LexErr::new(EMPTY_CLASS, i)))
                }
            },
            None => Err(Failure::Error(LexErr::new(CLASS_NOT_CLOSED, i))),
        }
    }

    /// Returns a group: the tokens of the pattern between the parentheses.
    fn left_paren(&mut self, i: usize) -> (r: Result<Tok, Failure>)
        requires
            old(self).wf(),
            old(self).position() >= 1,
            old(self).pattern()[old(self).position() - 1] == '(',
            i == old(self).origin() + offset_at(old(self).pattern(), old(self).position() - 1),
        ensures
            final(self).advanced(old(self)),
            match (r, token_at(old(self).pattern(), old(self).position() - 1, old(self).origin())) {
                (Ok(tok), Ok(lexeme)) => tok@ == lexeme.token && final(self).position() == old(
                    self,
                ).position() + lexeme.extra,
                (Err(failure), Err(expected)) => failure == expected,
                _ => false,
            },
        decreases old(self).pattern().len(), 1nat,
    {
        let start = self.pos;
        let inner_base = self.offset;
        match self.skip_to_closing('(', ')') {
            Some(j) => {
                if j > start {
                    let substring = self.src.substring_char(start, j);
                    proof {
                        lemma_offset_split(self.pattern(), start as int, j as int);
                        lemma_offset_split(self.pattern(), j as int, self.pattern().len() as int);
                    }
                    let inner = Lexer::at(substring, inner_base);
                    match inner.try_parse() {
                        Ok(toks) => {
                            let ghost expected = toks_view(toks@);
                            let tok = Tok::Group(toks);
                            assert(tok@ == TokView::Group(expected)) by {
                                assert(tok@ is Group);
                                let inner = tok@->Group_0;
                                assert(inner.len() == toks@.len());
                                assert forall|k: int| 0 <= k < inner.len() implies inner[k]
                                    == expected[k] by {
                                    assert(toks[k] == toks@[k]);
                                }
                                assert(inner =~= expected);
                            }
                            Ok(tok)
                        },
                        Err(e) => Err(e),
                    }
                } else {
                    Err(Failure::Error(LexErr::new(EMPTY_GROUP, i)))
                }
            },
            None => Err(Failure::Error(LexErr::new(GROUP_NOT_CLOSED, i))),
        }
    }

    /// Reads the next token; `None` at the end of the pattern.
    fn next_token(&mut self) -> (r: Option<Result<Tok, Failure>>)
        requires
            old(self).wf(),
        ensures
            final(self).advanced(old(self)),
            r is None <==> old(self).position() >= old(self).pattern().len(),
            r is None ==> final(self).position() == old(self).position(),
            r matches Some(step) ==> match (
                step,
                token_at(old(self).pattern(), old(self).position(), old(self).origin()),
            ) {
                (Ok(tok), Ok(lexeme)) => tok@ == lexeme.token && final(self).position() == old(
                    self,
                ).position() + 1 + lexeme.extra,
                (Err(failure), Err(expected)) => failure == expected,
                _ => false,
            },
        decreases old(self).pattern().len(), 2nat,
    {
        if self.pos >= self.chars.len() {
            return None;
        }
        let i = self.offset;
        let c = self.bump();
        let step = if c == '\\' {
            self.backslash(i)
        } else if c == '{' {
            self.left_curly(i)
        } else if c == '[' {
            self.left_bracket(i)
        } else if c == '(' {
            self.left_paren(i)
        } else if c == ')' {
            Err(Failure::Error(LexErr::new(STRAY_PAREN, i)))
        } else if c == ']' {
            Err(Failure::Error(LexErr::new(STRAY_BRACKET, i)))
        } else if c == '}' {
            Err(Failure::Error(LexErr::new(STRAY_CURLY, i)))
        } else {
            Ok(Tok::Char(c))
        };
        Some(step)
    }
}

} // verus!
