//! The tokens of the extended pattern syntax, with groups and back
//! references, and what a pattern of that syntax lexes to.

use vstd::prelude::*;
use vstd::utf8::encode_utf8;

verus! {

pub const END_OF_INPUT: &'static str = "unexpected end of input";

pub const BAD_ESCAPE: &'static str =
    "backslashes must be followed by a '\\', 'd', 'A', 'a', 'H', or 'h'";

pub const NO_NUMBER: &'static str = "expected number after {";

pub const NO_SECOND_NUMBER: &'static str = "range must be provided 2 numbers";

pub const EQUAL_BOUNDS: &'static str =
    "bounds cannot be equal in a range; consider using the repetition syntax";

pub const BOUNDS_REVERSED: &'static str = "lower bound must be less than upper bound";

pub const RANGE_NOT_CLOSED: &'static str = "expected closing '}' for range";

pub const REPETITION_NOT_CLOSED: &'static str = "expected closing '}' for repetition";

pub const EMPTY_CLASS: &'static str =
    "character class must contain a nonzero amount of characters";

pub const CLASS_NOT_CLOSED: &'static str = "opening '[' has no corresponding closing ']'";

pub const EMPTY_GROUP: &'static str = "group must contain a nonzero amount of characters";

pub const GROUP_NOT_CLOSED: &'static str = "opening '(' has no corresponding closing ')'";

pub const STRAY_PAREN: &'static str = "unexpected )";

pub const STRAY_BRACKET: &'static str = "unexpected ]";

pub const STRAY_CURLY: &'static str = "unexpected }";

pub const DIGITS: &'static str = "0123456789";

pub const UPPERCASE_ALPHABET: &'static str = "ABCDEFGHIJKLMNOPQRSTUVWXYZ";

pub const LOWERCASE_ALPHABET: &'static str = "abcdefghijklmnopqrstuvwxyz";

pub const LOWERCASE_HEX: &'static str = "0123456789abcdef";

pub const UPPERCASE_HEX: &'static str = "0123456789ABCDEF";

/// A lexing failure: what went wrong, and the byte offset of the token at fault.
#[derive(Debug, PartialEq, Clone)]
pub struct LexErr {
    pub msg: &'static str,
    pub offset: usize,
}

/// One unit of a pattern.
#[derive(Debug, PartialEq)]
pub enum Tok {
    /// One position that runs through the characters of the class.
    Class(String),
    /// One fixed character.
    Char(char),
    /// What the group with this number matched.
    BackRef(usize),
    /// The preceding token, this many times.
    Repeat(usize),
    /// The preceding token, from the first to the second number of times.
    Range(usize, usize),
    /// A pattern in parentheses.
    Group(Vec<Tok>),
}

/// A token as plain data.
pub enum TokView {
    Class(Seq<char>),
    Char(char),
    BackRef(usize),
    Repeat(usize),
    Range(usize, usize),
    Group(Seq<TokView>),
}

/// The token `tok` as plain data.
pub open spec fn tok_view(tok: Tok) -> TokView
    decreases tok,
{
    match tok {
        Tok::Class(content) => TokView::Class(content@),
        Tok::Char(c) => TokView::Char(c),
        Tok::BackRef(n) => TokView::BackRef(n),
        Tok::Repeat(n) => TokView::Repeat(n),
        Tok::Range(lower, upper) => TokView::Range(lower, upper),
        Tok::Group(inner) => TokView::Group(
            Seq::new(
                inner@.len(),
                |i: int|
                    if 0 <= i < inner@.len() {
                        tok_view(inner[i])
                    } else {
                        TokView::Repeat(0)
                    },
            ),
        ),
    }
}

impl View for Tok {
    type V = TokView;

    open spec fn view(&self) -> TokView {
        tok_view(*self)
    }
}

impl Clone for Tok {
    fn clone(&self) -> (copy: Self)
        ensures
            copy@ == self@,
        decreases self,
    {
        match self {
            Tok::Class(content) => Tok::Class(content.clone()),
            Tok::Char(c) => Tok::Char(*c),
            Tok::BackRef(n) => Tok::BackRef(*n),
            Tok::Repeat(n) => Tok::Repeat(*n),
            Tok::Range(lower, upper) => Tok::Range(*lower, *upper),
            Tok::Group(inner) => {
                let mut copies: Vec<Tok> = Vec::new();
                let mut i: usize = 0;
                while i < inner.len()
                    invariant
                        i <= inner@.len(),
                        copies@.len() == i,
                        *self is Group,
                        (*self)->Group_0 == *inner,
                        forall|k: int| 0 <= k < i ==> (#[trigger] copies@[k])@ == inner@[k]@,
                    decreases inner@.len() - i,
                {
                    proof {
                        vstd::std_specs::vec::axiom_vec_index_decreases(*inner, i as int);
                        let held = (*self)->Group_0;
                        assert(held == *inner);
                        assert(decreases_to!(*self => held[i as int]));
                    }
                    copies.push(inner[i].clone());
                    i += 1;
                }
                let copy = Tok::Group(copies);
                proof {
                    lemma_group_view(*inner);
                    lemma_group_view(copies);
                    assert(toks_view(copies@) =~= toks_view(inner@));
                }
                copy
            },
        }
    }
}

/// The tokens as plain data.
pub open spec fn toks_view(toks: Seq<Tok>) -> Seq<TokView> {
    Seq::new(toks.len(), |i: int| toks[i]@)
}

/// A group's view holds the views of its tokens.
pub proof fn lemma_group_view(toks: Vec<Tok>)
    ensures
        Tok::Group(toks)@ == TokView::Group(toks_view(toks@)),
{
    let tok = Tok::Group(toks);
    let inner = tok@->Group_0;
    assert(tok@ is Group);
    assert(inner.len() == toks@.len());
    assert forall|k: int| 0 <= k < inner.len() implies inner[k] == toks_view(toks@)[k] by {
        assert(toks[k] == toks@[k]);
    }
    assert(inner =~= toks_view(toks@));
}

/// How lexing can end without tokens: with an error, or at a number too
/// large for a `usize`.
#[derive(Debug, PartialEq, Clone)]
pub enum Failure {
    Error(LexErr),
    Overflow,
}

/// The error `msg` at byte `offset`.
pub open spec fn fail<T>(msg: &'static str, offset: int) -> Result<T, Failure> {
    Err(Failure::Error(LexErr { msg, offset: offset as usize }))
}

/// The number of bytes that `chars[..i]` take in UTF-8.
pub open spec fn offset_at(chars: Seq<char>, i: int) -> nat {
    encode_utf8(chars.take(i)).len()
}

pub open spec fn is_digit(c: char) -> bool {
    '0' <= c <= '9'
}

/// Where the digits that start at `from` end.
pub open spec fn digits_end(chars: Seq<char>, from: int) -> int
    decreases chars.len() - from,
{
    if 0 <= from < chars.len() && is_digit(chars[from]) {
        digits_end(chars, from + 1)
    } else {
        from
    }
}

/// The number that the decimal digits `chars[from..to]` write.
pub open spec fn decimal(chars: Seq<char>, from: int, to: int) -> nat
    decreases to - from,
{
    if to <= from {
        0
    } else {
        decimal(chars, from, to - 1) * 10 + (chars[to - 1] as u32 - '0' as u32) as nat
    }
}

/// The index of the `close` that ends what `depth` earlier `open`s began,
/// looking from `pos` on.
pub open spec fn closing(chars: Seq<char>, pos: int, depth: nat, open: char, close: char) -> Option<
    int,
>
    decreases chars.len() - pos,
{
    if pos < 0 || pos >= chars.len() {
        None
    } else if chars[pos] == open {
        closing(chars, pos + 1, depth + 1, open, close)
    } else if chars[pos] == close {
        if depth <= 1 {
            Some(pos)
        } else {
            closing(chars, pos + 1, (depth - 1) as nat, open, close)
        }
    } else {
        closing(chars, pos + 1, depth, open, close)
    }
}

/// The class that the escape `\c` stands for, if `c` names one.
pub open spec fn shorthand(c: char) -> Option<Seq<char>> {
    if c == 'd' {
        Some(DIGITS@)
    } else if c == 'A' {
        Some(UPPERCASE_ALPHABET@)
    } else if c == 'a' {
        Some(LOWERCASE_ALPHABET@)
    } else if c == 'H' {
        Some(UPPERCASE_HEX@)
    } else if c == 'h' {
        Some(LOWERCASE_HEX@)
    } else {
        None
    }
}

/// The characters that a backslash turns into themselves.
pub open spec fn escapable(c: char) -> bool {
    c == '\\' || c == '(' || c == ')' || c == '[' || c == ']' || c == '{' || c == '}'
}

/// One token and the number of characters it takes beyond its first.
pub struct Lexeme {
    pub token: TokView,
    pub extra: nat,
}

/// The number whose first digit stands at `from`, as a token made by `make`;
/// `first` is the index at which the token began.
pub open spec fn number_token(
    chars: Seq<char>,
    first: int,
    from: int,
    make: spec_fn(usize) -> TokView,
) -> Result<Lexeme, Failure> {
    let end = digits_end(chars, from);
    if decimal(chars, from, end) > usize::MAX {
        Err(Failure::Overflow)
    } else {
        Ok(Lexeme { token: make(decimal(chars, from, end) as usize), extra: (end - first - 1) as nat })
    }
}

/// Reads `{n}` or `{lower,upper}` whose `{` stands at `pos`, which is byte
/// `at` of the whole pattern.
pub open spec fn curly(chars: Seq<char>, pos: int, at: int) -> Result<Lexeme, Failure> {
    if pos + 1 >= chars.len() || !is_digit(chars[pos + 1]) {
        fail(NO_NUMBER, at)
    } else {
        let p = digits_end(chars, pos + 1);
        if decimal(chars, pos + 1, p) > usize::MAX {
            Err(Failure::Overflow)
        } else {
            let lower = decimal(chars, pos + 1, p) as usize;
            if p < chars.len() && chars[p] == ',' {
                if p + 1 >= chars.len() || !is_digit(chars[p + 1]) {
                    fail(NO_SECOND_NUMBER, at)
                } else {
                    let q = digits_end(chars, p + 1);
                    if decimal(chars, p + 1, q) > usize::MAX {
                        Err(Failure::Overflow)
                    } else {
                        let upper = decimal(chars, p + 1, q) as usize;
                        if !(q < chars.len() && chars[q] == '}') {
                            fail(RANGE_NOT_CLOSED, at)
                        } else if lower < upper {
                            Ok(Lexeme { token: TokView::Range(lower, upper), extra: (q - pos) as nat })
                        } else if lower == upper {
                            fail(EQUAL_BOUNDS, at)
                        } else {
                            fail(BOUNDS_REVERSED, at)
                        }
                    }
                }
            } else if p < chars.len() && chars[p] == '}' {
                Ok(Lexeme { token: TokView::Repeat(lower), extra: (p - pos) as nat })
            } else {
                fail(REPETITION_NOT_CLOSED, at)
            }
        }
    }
}

/// The characters of `chars` that are left from `pos` on.
pub open spec fn left(chars: Seq<char>, pos: int) -> nat {
    if 0 <= pos <= chars.len() {
        (chars.len() - pos) as nat
    } else {
        0
    }
}

/// Reads the token that starts at `pos`, where `pos < chars.len()`. The
/// pattern `chars` starts at byte `base` of the whole pattern.
pub open spec fn token_at(chars: Seq<char>, pos: int, base: nat) -> Result<Lexeme, Failure>
    decreases chars.len(), 0nat,
{
    let c = chars[pos];
    let at = (base + offset_at(chars, pos)) as int;
    if pos < 0 || pos >= chars.len() {
        fail(END_OF_INPUT, at)
    } else if c == '\\' {
        if pos + 1 >= chars.len() {
            fail(END_OF_INPUT, at)
        } else if shorthand(chars[pos + 1]) is Some {
            Ok(Lexeme { token: TokView::Class(shorthand(chars[pos + 1])->0), extra: 1 })
        } else if escapable(chars[pos + 1]) {
            Ok(Lexeme { token: TokView::Char(chars[pos + 1]), extra: 1 })
        } else if is_digit(chars[pos + 1]) {
            number_token(chars, pos, pos + 1, |n: usize| TokView::BackRef(n))
        } else {
            fail(BAD_ESCAPE, at)
        }
    } else if c == '{' {
        curly(chars, pos, at)
    } else if c == '[' {
        match closing(chars, pos + 1, 1, '[', ']') {
            None => fail(CLASS_NOT_CLOSED, at),
            Some(j) => {
                if j <= pos + 1 {
                    fail(EMPTY_CLASS, at)
                } else {
                    Ok(
                        Lexeme {
                            token: TokView::Class(chars.subrange(pos + 1, j)),
                            extra: (j - pos) as nat,
                        },
                    )
                }
            },
        }
    } else if c == '(' {
        match closing(chars, pos + 1, 1, '(', ')') {
            None => fail(GROUP_NOT_CLOSED, at),
            Some(j) => {
                if j <= pos + 1 || j > chars.len() {
                    fail(EMPTY_GROUP, at)
                } else {
                    match tokens_from(
                        chars.subrange(pos + 1, j),
                        0,
                        base + offset_at(chars, pos + 1),
                        Seq::empty(),
                    ) {
                        Err(e) => Err(e),
                        Ok(inner) => Ok(
                            Lexeme { token: TokView::Group(inner), extra: (j - pos) as nat },
                        ),
                    }
                }
            },
        }
    } else if c == ')' {
        fail(STRAY_PAREN, at)
    } else if c == ']' {
        fail(STRAY_BRACKET, at)
    } else if c == '}' {
        fail(STRAY_CURLY, at)
    } else {
        Ok(Lexeme { token: TokView::Char(c), extra: 0 })
    }
}

/// Reads tokens from `pos` to the end of `chars`, after those in `sofar`.
pub open spec fn tokens_from(chars: Seq<char>, pos: int, base: nat, sofar: Seq<TokView>) -> Result<
    Seq<TokView>,
    Failure,
>
    decreases chars.len(), 1 + left(chars, pos),
{
    if pos < 0 || pos >= chars.len() {
        Ok(sofar)
    } else {
        match token_at(chars, pos, base) {
            Err(e) => Err(e),
            Ok(lexeme) => tokens_from(
                chars,
                pos + 1 + lexeme.extra,
                base,
                sofar.push(lexeme.token),
            ),
        }
    }
}

/// What a pattern lexes to.
pub open spec fn lexed(chars: Seq<char>) -> Result<Seq<TokView>, Failure> {
    tokens_from(chars, 0, 0, Seq::empty())
}

} // verus!
