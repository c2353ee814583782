//! The lexer: from the text of a pattern to its tokens and class dictionary.

use crate::codegen::dict::{distinct, Dict};
use crate::codegen::grammar::{
    class_body, class_lexeme, curly, decimal, digits_end, escapable_in_class, fail, first_non_ascii,
    first_varying_pair, is_digit, lemma_digits_end, lemma_number_end, lemma_token_advances,
    lemma_tokenized_well_formed, number, scan, shorthand, span, token_at, tokenized, validated,
    well_formed, Scanned, BACKSLASH, BAD_CLASS_ESCAPE, BAD_ESCAPE, BOUNDS_REVERSED,
    BRACKET_IN_CLASS, COMMA, EMPTY_CLASS, EMPTY_PATTERN, EQUAL_BOUNDS, LEFT_BRACKET, LEFT_CURLY,
    LOWER_A, LOWER_D, LOWER_F, LOWER_H, LOWER_W, LOWER_Z, NINE, NOT_ASCII, NOT_A_NUMBER,
    NUMBER_TOO_LARGE, RANGE_NOT_CLOSED, REPEAT_NOT_CLOSED, REPEAT_TOO_SMALL, RIGHT_BRACKET,
    RIGHT_CURLY, STRAY_BRACKET, STRAY_CURLY, UNDERSCORE, UNEXPECTED_END, UPPER_A, UPPER_F, UPPER_H,
    UPPER_Z, VARYING_FIRST, VARYING_TWICE, ZERO,
};
pub use crate::codegen::grammar::{ParseErr, Token};
use vstd::prelude::*;
use vstd::string::StringSliceAdditionalSpecFns;

verus! {

impl ParseErr {
    pub fn new(msg: &'static str, offset: usize) -> (e: ParseErr)
        ensures
            e == (ParseErr { msg, offset }),
    {
        ParseErr { msg, offset }
    }
}

impl Token {
    /// Whether the token modifies the one before it.
    pub fn is_varying(&self) -> (v: bool)
        ensures
            v == self.varying(),
    {
        match self {
            Token::Repeat(_) => true,
            Token::Range { .. } => true,
            _ => false,
        }
    }
}

/// The digits `s[from..k]` are part of the number that starts at `from`.
proof fn lemma_digits_extend(s: Seq<u8>, from: int, k: int)
    requires
        0 <= from <= k <= s.len(),
        forall|i: int| from <= i < k ==> is_digit(s[i]),
    ensures
        digits_end(s, from) == digits_end(s, k),
    decreases k - from,
{
    if from < k {
        lemma_digits_extend(s, from + 1, k);
    }
}

/// More digits never write a smaller number.
proof fn lemma_decimal_grows(s: Seq<u8>, from: int, mid: int, to: int)
    requires
        from <= mid <= to,
        forall|i: int| from <= i < to ==> is_digit(s[i]),
    ensures
        decimal(s, from, mid) <= decimal(s, from, to),
    decreases to - mid,
{
    if mid < to {
        lemma_decimal_grows(s, from, mid, to - 1);
    }
}

/// The value of the decimal digits `src[from..to]`, unless it exceeds a `usize`.
fn parse_decimal(src: &[u8], from: usize, to: usize) -> (value: Option<usize>)
    requires
        from <= to <= src@.len(),
        forall|i: int| from <= i < to ==> is_digit(src@[i]),
    ensures
        value is Some <==> decimal(src@, from as int, to as int) <= usize::MAX,
        value matches Some(v) ==> v == decimal(src@, from as int, to as int),
{
    let mut acc: usize = 0;
    let mut i: usize = from;
    while i < to
        invariant
            from <= i <= to <= src@.len(),
            forall|j: int| from <= j < to ==> is_digit(src@[j]),
            acc == decimal(src@, from as int, i as int),
        decreases to - i,
    {
        let digit: usize = (src[i] - ZERO) as usize;
        proof {
            lemma_decimal_grows(src@, from as int, i + 1, to as int);
        }
        let scaled = match acc.checked_mul(10) {
            Some(v) => v,
            None => {
                return None;
            },
        };
        acc = match scaled.checked_add(digit) {
            Some(v) => v,
            None => {
                return None;
            },
        };
        i += 1;
    }
    Some(acc)
}

/// The bytes `lo` to `hi`, appended to `out`.
fn push_span(out: &mut Vec<u8>, lo: u8, hi: u8)
    requires
        lo <= hi,
    ensures
        final(out)@ == old(out)@ + span(lo, hi),
{
    let ghost before = out@;
    let mut c: u8 = lo;
    while c < hi
        invariant
            lo <= c <= hi,
            out@ == before + span(lo, c).drop_last(),
        decreases hi - c,
    {
        out.push(c);
        c += 1;
        assert(out@ =~= before + span(lo, c).drop_last());
    }
    out.push(hi);
    assert(out@ =~= before + span(lo, hi));
}

/// The class that the escape `\c` stands for, if `c` names one.
fn shorthand_class(c: u8) -> (class: Option<Vec<u8>>)
    ensures
        class is Some <==> shorthand(c) is Some,
        class matches Some(v) ==> v@ == shorthand(c)->0,
{
    let mut out: Vec<u8> = Vec::new();
    if c == LOWER_D {
        push_span(&mut out, ZERO, NINE);
    } else if c == UPPER_A {
        push_span(&mut out, UPPER_A, UPPER_Z);
    } else if c == LOWER_A {
        push_span(&mut out, LOWER_A, LOWER_Z);
    } else if c == UPPER_H {
        push_span(&mut out, ZERO, NINE);
        push_span(&mut out, UPPER_A, UPPER_F);
    } else if c == LOWER_H {
        push_span(&mut out, ZERO, NINE);
        push_span(&mut out, LOWER_A, LOWER_F);
    } else if c == LOWER_W {
        push_span(&mut out, UPPER_A, UPPER_Z);
        push_span(&mut out, LOWER_A, LOWER_Z);
        push_span(&mut out, ZERO, NINE);
        out.push(UNDERSCORE);
    } else {
        return None;
    }
    assert(out@ =~= shorthand(c)->0);
    Some(out)
}

/// Reads a pattern token by token.
pub struct Lexer<'s> {
    src: &'s [u8],
    /// The offset of the next byte to read.
    pos: usize,
    dict: Dict,
}

impl<'s> Lexer<'s> {
    /// The pattern.
    pub closed spec fn bytes(&self) -> Seq<u8> {
        self.src@
    }

    /// The offset of the next byte to read.
    pub closed spec fn position(&self) -> int {
        self.pos as int
    }

    /// The classes met so far.
    pub closed spec fn classes(&self) -> Seq<Seq<u8>> {
        self.dict@
    }

    /// The lexer has not read past the end, and holds no class twice.
    pub closed spec fn wf(&self) -> bool {
        self.pos <= self.src@.len() && distinct(self.dict@)
    }

    /// The same pattern and classes, possibly further on.
    pub open spec fn advanced(&self, before: &Self) -> bool {
        &&& self.wf()
        &&& self.bytes() == before.bytes()
        &&& self.classes() == before.classes()
        &&& self.position() >= before.position()
    }

    /// Lexes and validates `src`: its class dictionary and tokens, or the
    /// first error with the offset of the byte at fault.
    pub fn tokenize(src: &str) -> (r: Result<(Dict, Vec<Token>), ParseErr>)
        ensures
            match (r, tokenized(src.spec_bytes())) {
                (Ok((dict, tokens)), Ok(lexed)) => dict@ == lexed.classes && tokens@
                    == lexed.tokens && well_formed(lexed),
                (Err(e), Err(expected)) => e == expected,
                _ => false,
            },
    {
        let bytes = src.as_bytes();
        if let Some(i) = find_non_ascii(bytes) {
            return Err(ParseErr::new(NOT_ASCII, i));
        }
        let mut lexer = Lexer::new(bytes);
        let mut tokens: Vec<(usize, Token)> = Vec::new();
        let ghost start = Scanned { classes: Seq::empty(), tokens: Seq::empty() };
        loop
            invariant
                lexer.wf(),
                lexer.bytes() == bytes@,
                bytes@ == src.spec_bytes(),
                !exists|i: int| first_non_ascii(bytes@, i),
                start == (Scanned { classes: Seq::empty(), tokens: Seq::empty() }),
                scan(bytes@, 0, start) == scan(
                    bytes@,
                    lexer.position(),
                    Scanned { classes: lexer.classes(), tokens: tokens@ },
                ),
            ensures
                lexer.wf(),
                scan(bytes@, 0, start) == Ok::<Scanned, ParseErr>(
                    Scanned { classes: lexer.classes(), tokens: tokens@ },
                ),
            decreases bytes@.len() - lexer.position(),
        {
            proof {
                if lexer.position() < bytes@.len() && token_at(
                    bytes@,
                    lexer.position(),
                    lexer.classes(),
                ) is Ok {
                    lemma_token_advances(bytes@, lexer.position(), lexer.classes());
                }
            }
            match lexer.next_token() {
                None => {
                    break ;
                },
                Some(Err(e)) => {
                    return Err(e);
                },
                Some(Ok(token)) => {
                    tokens.push(token);
                },
            }
        }
        if let Some(e) = check_order(&tokens) {
            return Err(e);
        }
        let plain = strip_offsets(&tokens);
        let size = bytes.len();
        proof {
            assert(bytes@.len() == size);
            lemma_tokenized_well_formed(bytes@);
        }
        Ok((lexer.dict, plain))
    }

    /// A lexer at the start of `src`, with no class met.
    fn new(src: &'s [u8]) -> (lexer: Self)
        ensures
            lexer.wf(),
            lexer.bytes() == src@,
            lexer.position() == 0,
            lexer.classes() == Seq::<Seq<u8>>::empty(),
    {
        Lexer { src, pos: 0, dict: Dict::new() }
    }

    /// The class token for `content`, which is interned.
    fn class(&mut self, content: Vec<u8>) -> (token: Token)
        requires
            old(self).wf(),
        ensures
            final(self).wf(),
            final(self).bytes() == old(self).bytes(),
            final(self).position() == old(self).position(),
            token == class_lexeme(
                old(self).classes(),
                content@,
                final(self).position(),
            ).token,
            final(self).classes() == class_lexeme(
                old(self).classes(),
                content@,
                final(self).position(),
            ).classes,
    {
        let len = content.len();
        let id = self.dict.intern(content);
        Token::Class { id, len }
    }

    /// Takes the next byte.
    fn consume_char(&mut self) -> (r: Result<u8, ParseErr>)
        requires
            old(self).wf(),
            old(self).position() >= 1,
        ensures
            final(self).advanced(old(self)),
            old(self).position() < old(self).bytes().len() ==> r == Ok::<u8, ParseErr>(
                old(self).bytes()[old(self).position()],
            ) && final(self).position() == old(self).position() + 1,
            old(self).position() >= old(self).bytes().len() ==> r == fail::<u8>(
                UNEXPECTED_END,
                old(self).position() - 1,
            ),
    {
        if self.pos < self.src.len() {
            let c = self.src[self.pos];
            self.pos += 1;
            Ok(c)
        } else {
            Err(self.eoi())
        }
    }

    /// Takes the next byte if `predicate` holds of it.
    fn consume_if<F: Fn(u8) -> bool>(&mut self, predicate: F) -> (r: Result<Option<u8>, ParseErr>)
        requires
            old(self).wf(),
            old(self).position() >= 1,
            forall|c: u8| call_requires(predicate, (c,)),
        ensures
            final(self).advanced(old(self)),
            old(self).position() >= old(self).bytes().len() ==> r == fail::<Option<u8>>(
                UNEXPECTED_END,
                old(self).position() - 1,
            ),
            old(self).position() < old(self).bytes().len() ==> match r {
                Ok(Some(c)) => c == old(self).bytes()[old(self).position()] && call_ensures(
                    predicate,
                    (c,),
                    true,
                ) && final(self).position() == old(self).position() + 1,
                Ok(None) => call_ensures(predicate, (old(self).bytes()[old(self).position()],), false)
                    && final(self).position() == old(self).position(),
                Err(_) => false,
            },
    {
        if self.pos < self.src.len() {
            let c = self.src[self.pos];
            if predicate(c) {
                self.pos += 1;
                Ok(Some(c))
            } else {
                Ok(None)
            }
        } else {
            Err(self.eoi())
        }
    }

    /// Takes a run of decimal digits and the number they write.
    fn consume_number(&mut self) -> (r: Result<usize, ParseErr>)
        requires
            old(self).wf(),
            old(self).position() >= 1,
        ensures
            final(self).advanced(old(self)),
            match (r, number(old(self).bytes(), old(self).position())) {
                (Ok(n), Ok((value, end))) => n == value && final(self).position() == end,
                (Err(e), Err(expected)) => e == expected,
                _ => false,
            },
    {
        let start = self.pos;
        let first = match self.consume_char() {
            Ok(c) => c,
            Err(e) => {
                return Err(e);
            },
        };
        if !(first >= ZERO && first <= NINE) {
            return Err(self.err(NOT_A_NUMBER));
        }
        let digit = |c: u8| -> (d: bool)
            ensures
                d == is_digit(c),
            { c >= ZERO && c <= NINE };
        loop
            invariant
                self.advanced(old(self)),
                start == old(self).position(),
                start < self.position() <= self.bytes().len(),
                forall|i: int| start <= i < self.position() ==> is_digit(self.bytes()[i]),
                forall|c: u8| call_requires(digit, (c,)),
                forall|c: u8, d: bool| call_ensures(digit, (c,), d) ==> d == is_digit(c),
            ensures
                self.advanced(old(self)),
                start < self.position() < self.bytes().len(),
                forall|i: int| start <= i < self.position() ==> is_digit(self.bytes()[i]),
                !is_digit(self.bytes()[self.position()]),
            decreases self.bytes().len() - self.position(),
        {
            proof {
                lemma_digits_extend(self.bytes(), start as int, self.position());
                lemma_digits_end(self.bytes(), self.position());
            }
            match self.consume_if(digit) {
                Ok(Some(_)) => {},
                Ok(None) => {
                    break ;
                },
                Err(e) => {
                    return Err(e);
                },
            }
        }
        proof {
            lemma_digits_extend(self.bytes(), start as int, self.position());
        }
        match parse_decimal(self.src, start, self.pos) {
            Some(n) => Ok(n),
            None => Err(ParseErr::new(NUMBER_TOO_LARGE, start)),
        }
    }

    /// The error `msg` at the byte that was read last.
    fn err(&self, msg: &'static str) -> (e: ParseErr)
        requires
            self.position() >= 1,
        ensures
            e == (ParseErr { msg, offset: (self.position() - 1) as usize }),
    {
        ParseErr::new(msg, self.pos - 1)
    }

    /// The error for a pattern that ends too early.
    fn eoi(&self) -> (e: ParseErr)
        requires
            self.position() >= 1,
        ensures
            e == (ParseErr { msg: UNEXPECTED_END, offset: (self.position() - 1) as usize }),
    {
        ParseErr::new(UNEXPECTED_END, self.pos - 1)
    }

    /// Reads what follows a backslash: a shorthand class or an escaped byte.
    fn backslash(&mut self) -> (r: Result<Token, ParseErr>)
        requires
            old(self).wf(),
            old(self).position() >= 1,
            old(self).bytes()[old(self).position() - 1] == BACKSLASH,
        ensures
            final(self).wf(),
            final(self).bytes() == old(self).bytes(),
            match (r, token_at(old(self).bytes(), old(self).position() - 1, old(self).classes())) {
                (Ok(token), Ok(lexeme)) => token == lexeme.token && final(self).position()
                    == lexeme.next && final(self).classes() == lexeme.classes,
                (Err(e), Err(expected)) => e == expected,
                _ => false,
            },
    {
        let c = match self.consume_char() {
            Ok(c) => c,
            Err(e) => {
                return Err(e);
            },
        };
        match shorthand_class(c) {
            Some(content) => Ok(self.class(content)),
            None => {
                if c == BACKSLASH || c == LEFT_BRACKET || c == RIGHT_BRACKET || c == LEFT_CURLY
                    || c == RIGHT_CURLY {
                    Ok(Token::Char(c))
                } else {
                    Err(self.err(BAD_ESCAPE))
                }
            },
        }
    }

    /// Reads a repeat or a range after its opening brace.
    fn left_curly(&mut self) -> (r: Result<Token, ParseErr>)
        requires
            old(self).wf(),
            old(self).position() >= 1,
        ensures
            final(self).advanced(old(self)),
            match (r, curly(old(self).bytes(), old(self).position() - 1)) {
                (Ok(token), Ok((expected, next))) => token == expected && final(self).position()
                    == next,
                (Err(e), Err(expected)) => e == expected,
                _ => false,
            },
    {
        let start = self.pos - 1;
        let lower = match self.consume_number() {
            Ok(n) => n,
            Err(e) => {
                return Err(e);
            },
        };
        proof {
            lemma_number_end(self.bytes(), start + 1);
        }
        let sep = match self.consume_char() {
            Ok(c) => c,
            Err(e) => {
                return Err(e);
            },
        };
        if sep == COMMA {
            let upper = match self.consume_number() {
                Ok(n) => n,
                Err(e) => {
                    return Err(e);
                },
            };
            proof {
                lemma_number_end(self.bytes(), number(self.bytes(), start + 1)->Ok_0.1 + 1);
            }
            let close = match self.consume_char() {
                Ok(c) => c,
                Err(e) => {
                    return Err(e);
                },
            };
            if close == RIGHT_CURLY {
                if lower < upper {
                    Ok(Token::Range { lower, upper })
                } else if lower == upper {
                    Err(ParseErr::new(EQUAL_BOUNDS, start))
                } else {
                    Err(ParseErr::new(BOUNDS_REVERSED, start))
                }
            } else {
                Err(self.err(RANGE_NOT_CLOSED))
            }
        } else if sep == RIGHT_CURLY {
            if lower > 1 {
                Ok(Token::Repeat(lower))
            } else {
                Err(ParseErr::new(REPEAT_TOO_SMALL, start))
            }
        } else {
            Err(self.err(REPEAT_NOT_CLOSED))
        }
    }

    /// Reads a bracket class after its opening bracket.
    fn left_bracket(&mut self) -> (r: Result<Token, ParseErr>)
        requires
            old(self).wf(),
            old(self).position() >= 1,
            old(self).bytes()[old(self).position() - 1] == LEFT_BRACKET,
        ensures
            final(self).wf(),
            final(self).bytes() == old(self).bytes(),
            match (r, token_at(old(self).bytes(), old(self).position() - 1, old(self).classes())) {
                (Ok(token), Ok(lexeme)) => token == lexeme.token && final(self).position()
                    == lexeme.next && final(self).classes() == lexeme.classes,
                (Err(e), Err(expected)) => e == expected,
                _ => false,
            },
    {
        let start = self.pos - 1;
        let mut buf: Vec<u8> = Vec::new();
        let escaped = |c: u8| -> (b: bool)
            ensures
                b == escapable_in_class(c),
            { c == BACKSLASH || c == LEFT_BRACKET || c == RIGHT_BRACKET };
        loop
            invariant
                self.advanced(old(self)),
                self.position() >= 1,
                start == old(self).position() - 1,
                self.bytes()[start as int] == LEFT_BRACKET,
                class_body(self.bytes(), start + 1, Seq::empty()) == class_body(
                    self.bytes(),
                    self.position(),
                    buf@,
                ),
                forall|c: u8| call_requires(escaped, (c,)),
                forall|c: u8, b: bool| call_ensures(escaped, (c,), b) ==> b == escapable_in_class(c),
            decreases self.bytes().len() - self.position(),
        {
            let c = match self.consume_char() {
                Ok(c) => c,
                Err(e) => {
                    return Err(e);
                },
            };
            if c == RIGHT_BRACKET {
                if buf.len() == 0 {
                    return Err(ParseErr::new(EMPTY_CLASS, start));
                }
                return Ok(self.class(buf));
            } else if c == LEFT_BRACKET {
                return Err(self.err(BRACKET_IN_CLASS));
            } else if c == BACKSLASH {
                match self.consume_if(escaped) {
                    Ok(Some(e)) => {
                        buf.push(e);
                    },
                    Ok(None) => {
                        return Err(self.err(BAD_CLASS_ESCAPE));
                    },
                    Err(e) => {
                        return Err(e);
                    },
                }
            } else {
                buf.push(c);
            }
        }
    }

    /// Reads the next token and the offset at which it starts; `None` at the
    /// end of the pattern.
    fn next_token(&mut self) -> (r: Option<Result<(usize, Token), ParseErr>>)
        requires
            old(self).wf(),
        ensures
            final(self).wf(),
            final(self).bytes() == old(self).bytes(),
            r is None <==> old(self).position() >= old(self).bytes().len(),
            r is None ==> final(self).position() == old(self).position() && final(self).classes()
                == old(self).classes(),
            r matches Some(step) ==> match (
                step,
                token_at(old(self).bytes(), old(self).position(), old(self).classes()),
            ) {
                (Ok((offset, token)), Ok(lexeme)) => offset == old(self).position() && token
                    == lexeme.token && final(self).position() == lexeme.next
                    && final(self).classes() == lexeme.classes,
                (Err(e), Err(expected)) => e == expected,
                _ => false,
            },
    {
        if self.pos >= self.src.len() {
            return None;
        }
        let i = self.pos;
        let c = self.src[i];
        self.pos += 1;
        let step = if c == BACKSLASH {
            self.backslash()
        } else if c == LEFT_CURLY {
            self.left_curly()
        } else if c == LEFT_BRACKET {
            self.left_bracket()
        } else if c == RIGHT_BRACKET {
            Err(self.err(STRAY_BRACKET))
        } else if c == RIGHT_CURLY {
            Err(self.err(STRAY_CURLY))
        } else {
            Ok(Token::Char(c))
        };
        match step {
            Ok(token) => Some(Ok((i, token))),
            Err(e) => Some(Err(e)),
        }
    }
}

/// The offset of the first byte outside ASCII, if there is one.
fn find_non_ascii(bytes: &[u8]) -> (found: Option<usize>)
    ensures
        found is Some <==> exists|i: int| first_non_ascii(bytes@, i),
        found matches Some(i) ==> first_non_ascii(bytes@, i as int) && i == choose|i: int|
            first_non_ascii(bytes@, i),
{
    let mut i: usize = 0;
    while i < bytes.len()
        invariant
            i <= bytes@.len(),
            forall|j: int| 0 <= j < i ==> bytes@[j] < 128,
        decreases bytes@.len() - i,
    {
        if bytes[i] >= 128 {
            assert(first_non_ascii(bytes@, i as int));
            return Some(i);
        }
        i += 1;
    }
    None
}

/// The structural error of a token sequence, if it has one.
fn check_order(tokens: &Vec<(usize, Token)>) -> (e: Option<ParseErr>)
    ensures
        match (e, validated(Scanned { classes: Seq::empty(), tokens: tokens@ })) {
            (Some(e), Err(expected)) => e == expected,
            (None, Ok(_)) => true,
            _ => false,
        },
{
    if tokens.len() == 0 {
        return Some(ParseErr::new(EMPTY_PATTERN, 0));
    }
    if tokens[0].1.is_varying() {
        return Some(ParseErr::new(VARYING_FIRST, 0));
    }
    let mut k: usize = 1;
    while k < tokens.len()
        invariant
            1 <= k <= tokens.len(),
            !tokens@[0].1.varying(),
            forall|j: int| 1 <= j < k ==> !(#[trigger] tokens@[j].1.varying() && tokens@[j - 1].1.varying()),
        decreases tokens.len() - k,
    {
        if tokens[k - 1].1.is_varying() && tokens[k].1.is_varying() {
            proof {
                assert(first_varying_pair(tokens@, k as int));
                let first = choose|j: int| first_varying_pair(tokens@, j);
                assert(first_varying_pair(tokens@, first));
                assert(tokens@[first].1.varying() && tokens@[first - 1].1.varying());
                assert(tokens@[k as int].1.varying() && tokens@[k - 1].1.varying());
                assert(first == k);
            }
            return Some(ParseErr::new(VARYING_TWICE, tokens[k].0));
        }
        k += 1;
    }
    None
}

/// The tokens without their offsets.
fn strip_offsets(tokens: &Vec<(usize, Token)>) -> (plain: Vec<Token>)
    ensures
        plain@ == tokens@.map_values(|t: (usize, Token)| t.1),
{
    let mut plain: Vec<Token> = Vec::new();
    let mut i: usize = 0;
    while i < tokens.len()
        invariant
            i <= tokens.len(),
            plain@ == tokens@.take(i as int).map_values(|t: (usize, Token)| t.1),
        decreases tokens.len() - i,
    {
        plain.push(tokens[i].1);
        i += 1;
        assert(plain@ =~= tokens@.take(i as int).map_values(|t: (usize, Token)| t.1));
    }
    assert(tokens@.take(tokens.len() as int) =~= tokens@);
    plain
}

} // verus!
