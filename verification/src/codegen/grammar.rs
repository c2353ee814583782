//! The pattern language, as a function from the bytes of a pattern to its
//! tokens and class dictionary, or to the first error and its offset.
//!
//! Everything here is specification: the lexer is proved against it.

use crate::codegen::dict::{class_id, distinct, interned};
use vstd::prelude::*;

verus! {

pub const BACKSLASH: u8 = 92;

pub const LEFT_BRACKET: u8 = 91;

pub const RIGHT_BRACKET: u8 = 93;

pub const LEFT_CURLY: u8 = 123;

pub const RIGHT_CURLY: u8 = 125;

pub const COMMA: u8 = 44;

pub const ZERO: u8 = 48;

pub const NINE: u8 = 57;

pub const UPPER_A: u8 = 65;

pub const UPPER_F: u8 = 70;

pub const UPPER_H: u8 = 72;

pub const UPPER_Z: u8 = 90;

pub const UNDERSCORE: u8 = 95;

pub const LOWER_A: u8 = 97;

pub const LOWER_D: u8 = 100;

pub const LOWER_F: u8 = 102;

pub const LOWER_H: u8 = 104;

pub const LOWER_W: u8 = 119;

pub const LOWER_Z: u8 = 122;

pub const NOT_ASCII: &'static str = "pattern should only contain ASCII characters";

pub const EMPTY_PATTERN: &'static str = "pattern should be nonempty";

pub const VARYING_FIRST: &'static str = "pattern should begin with a character or character class";

pub const VARYING_TWICE: &'static str =
    "ranges and repeats should be preceded by characters or character classes";

pub const UNEXPECTED_END: &'static str = "unexpected end of input";

pub const NOT_A_NUMBER: &'static str = "expected positive integer";

pub const NUMBER_TOO_LARGE: &'static str = "range bounds should not exceed a usize";

pub const BAD_ESCAPE: &'static str =
    "'\\' should be followed by '\\', 'd', 'A', 'a', 'H', 'h', or 'w'";

pub const EQUAL_BOUNDS: &'static str =
    "a range's bounds should not be equal; consider using the repeat syntax";

pub const BOUNDS_REVERSED: &'static str = "a range's lower bound should be less the upper bound";

pub const RANGE_NOT_CLOSED: &'static str = "expected closing '}' for range";

pub const REPEAT_TOO_SMALL: &'static str =
    "number of repeats in a repetition should be greater than 1";

pub const REPEAT_NOT_CLOSED: &'static str = "expected closing '}' for repeat";

pub const BRACKET_IN_CLASS: &'static str =
    "'[' should be preceded with a '\\' in character classes";

pub const BAD_CLASS_ESCAPE: &'static str =
    "'\\' should be followed by ']', '[', or '\\' in character classes";

pub const EMPTY_CLASS: &'static str = "character classes should contain at least one character";

pub const STRAY_BRACKET: &'static str = "unexpected ']'";

pub const STRAY_CURLY: &'static str = "unexpected '}'";

/// A lexing failure: what went wrong, and the offset of the byte at fault.
#[derive(Debug, PartialEq)]
pub struct ParseErr {
    pub msg: &'static str,
    pub offset: usize,
}

/// One unit of a pattern.
#[derive(Debug, PartialEq, Eq, Clone, Copy, Structural)]
pub enum Token {
    /// One position that runs through the class with this id, which has `len` bytes.
    Class { id: usize, len: usize },
    /// The preceding token, `lower` to `upper` times.
    Range { lower: usize, upper: usize },
    /// One fixed byte.
    Char(u8),
    /// The preceding token, this many times.
    Repeat(usize),
}

impl Token {
    /// A token that modifies the one before it.
    pub open spec fn varying(self) -> bool {
        self is Repeat || self is Range
    }
}

/// The error `msg` at byte `offset`.
pub open spec fn fail<T>(msg: &'static str, offset: int) -> Result<T, ParseErr> {
    Err(ParseErr { msg, offset: offset as usize })
}

/// The bytes `lo`, `lo + 1`, ..., `hi`.
pub open spec fn span(lo: u8, hi: u8) -> Seq<u8> {
    Seq::new((hi - lo + 1) as nat, |i: int| (lo + i) as u8)
}

/// The class that the escape `\c` stands for, if `c` names one.
pub open spec fn shorthand(c: u8) -> Option<Seq<u8>> {
    if c == LOWER_D {
        Some(span(ZERO, NINE))
    } else if c == UPPER_A {
        Some(span(UPPER_A, UPPER_Z))
    } else if c == LOWER_A {
        Some(span(LOWER_A, LOWER_Z))
    } else if c == UPPER_H {
        Some(span(ZERO, NINE) + span(UPPER_A, UPPER_F))
    } else if c == LOWER_H {
        Some(span(ZERO, NINE) + span(LOWER_A, LOWER_F))
    } else if c == LOWER_W {
        Some(span(UPPER_A, UPPER_Z) + span(LOWER_A, LOWER_Z) + span(ZERO, NINE).push(UNDERSCORE))
    } else {
        None
    }
}

/// The bytes that a backslash turns into themselves outside a class.
pub open spec fn escapable(c: u8) -> bool {
    c == BACKSLASH || c == LEFT_BRACKET || c == RIGHT_BRACKET || c == LEFT_CURLY || c
        == RIGHT_CURLY
}

/// The bytes that a backslash turns into themselves inside a class.
pub open spec fn escapable_in_class(c: u8) -> bool {
    c == BACKSLASH || c == LEFT_BRACKET || c == RIGHT_BRACKET
}

pub open spec fn is_digit(c: u8) -> bool {
    ZERO <= c <= NINE
}

/// Where the digits that start at `from` end.
pub open spec fn digits_end(s: Seq<u8>, from: int) -> int
    decreases s.len() - from,
{
    if 0 <= from < s.len() && is_digit(s[from]) {
        digits_end(s, from + 1)
    } else {
        from
    }
}

/// The number that the decimal digits `s[from..to]` write.
pub open spec fn decimal(s: Seq<u8>, from: int, to: int) -> nat
    decreases to - from,
{
    if to <= from {
        0
    } else {
        decimal(s, from, to - 1) * 10 + (s[to - 1] - ZERO) as nat
    }
}

/// Reads a number at `pos`: its value and the offset of the byte after it.
/// The number must be followed by a byte that is no digit.
pub open spec fn number(s: Seq<u8>, pos: int) -> Result<(usize, int), ParseErr> {
    if pos >= s.len() {
        fail(UNEXPECTED_END, pos - 1)
    } else if !is_digit(s[pos]) {
        fail(NOT_A_NUMBER, pos)
    } else {
        let end = digits_end(s, pos);
        if end >= s.len() {
            fail(UNEXPECTED_END, end - 1)
        } else if decimal(s, pos, end) > usize::MAX {
            fail(NUMBER_TOO_LARGE, pos)
        } else {
            Ok((decimal(s, pos, end) as usize, end))
        }
    }
}

/// Reads `{n}` or `{lower,upper}` whose `{` stands at `start`: the token and
/// the offset after the closing `}`.
pub open spec fn curly(s: Seq<u8>, start: int) -> Result<(Token, int), ParseErr> {
    match number(s, start + 1) {
        Err(e) => Err(e),
        Ok((lower, p)) => {
            if s[p] == COMMA {
                match number(s, p + 1) {
                    Err(e) => Err(e),
                    Ok((upper, q)) => {
                        if s[q] != RIGHT_CURLY {
                            fail(RANGE_NOT_CLOSED, q)
                        } else if lower < upper {
                            Ok((Token::Range { lower, upper }, q + 1))
                        } else if lower == upper {
                            fail(EQUAL_BOUNDS, start)
                        } else {
                            fail(BOUNDS_REVERSED, start)
                        }
                    },
                }
            } else if s[p] == RIGHT_CURLY {
                if lower > 1 {
                    Ok((Token::Repeat(lower), p + 1))
                } else {
                    fail(REPEAT_TOO_SMALL, start)
                }
            } else {
                fail(REPEAT_NOT_CLOSED, p)
            }
        },
    }
}

/// Reads the inside of a bracket class from `pos` on, after the bytes `acc`:
/// the whole content and the offset after the closing `]`.
pub open spec fn class_body(s: Seq<u8>, pos: int, acc: Seq<u8>) -> Result<(Seq<u8>, int), ParseErr>
    decreases s.len() - pos,
{
    if pos < 0 || pos >= s.len() {
        fail(UNEXPECTED_END, pos - 1)
    } else if s[pos] == RIGHT_BRACKET {
        Ok((acc, pos + 1))
    } else if s[pos] == LEFT_BRACKET {
        fail(BRACKET_IN_CLASS, pos)
    } else if s[pos] == BACKSLASH {
        if pos + 1 >= s.len() {
            fail(UNEXPECTED_END, pos)
        } else if escapable_in_class(s[pos + 1]) {
            class_body(s, pos + 2, acc.push(s[pos + 1]))
        } else {
            fail(BAD_CLASS_ESCAPE, pos)
        }
    } else {
        class_body(s, pos + 1, acc.push(s[pos]))
    }
}

/// What one token leaves behind: the token, the offset after it, and the
/// dictionary with the token's class in it.
pub struct Lexeme {
    pub token: Token,
    pub next: int,
    pub classes: Seq<Seq<u8>>,
}

/// The class token for `content`, interned into `classes`.
pub open spec fn class_lexeme(classes: Seq<Seq<u8>>, content: Seq<u8>, next: int) -> Lexeme {
    Lexeme {
        token: Token::Class {
            id: class_id(classes, content) as usize,
            len: content.len() as usize,
        },
        next,
        classes: interned(classes, content),
    }
}

/// Reads the token that starts at `pos`, where `pos < s.len()`.
pub open spec fn token_at(s: Seq<u8>, pos: int, classes: Seq<Seq<u8>>) -> Result<Lexeme, ParseErr> {
    let c = s[pos];
    if c == BACKSLASH {
        if pos + 1 >= s.len() {
            fail(UNEXPECTED_END, pos)
        } else if shorthand(s[pos + 1]) is Some {
            Ok(class_lexeme(classes, shorthand(s[pos + 1])->0, pos + 2))
        } else if escapable(s[pos + 1]) {
            Ok(Lexeme { token: Token::Char(s[pos + 1]), next: pos + 2, classes })
        } else {
            fail(BAD_ESCAPE, pos + 1)
        }
    } else if c == LEFT_CURLY {
        match curly(s, pos) {
            Err(e) => Err(e),
            Ok((token, next)) => Ok(Lexeme { token, next, classes }),
        }
    } else if c == LEFT_BRACKET {
        match class_body(s, pos + 1, Seq::empty()) {
            Err(e) => Err(e),
            Ok((content, next)) => {
                if content.len() == 0 {
                    fail(EMPTY_CLASS, pos)
                } else {
                    Ok(class_lexeme(classes, content, next))
                }
            },
        }
    } else if c == RIGHT_BRACKET {
        fail(STRAY_BRACKET, pos)
    } else if c == RIGHT_CURLY {
        fail(STRAY_CURLY, pos)
    } else {
        Ok(Lexeme { token: Token::Char(c), next: pos + 1, classes })
    }
}

/// The tokens of a pattern with the offset at which each starts, and the
/// classes they name.
pub struct Scanned {
    pub classes: Seq<Seq<u8>>,
    pub tokens: Seq<(usize, Token)>,
}

/// The digits that start at `from` end at or before the end of `s`.
pub proof fn lemma_digits_end(s: Seq<u8>, from: int)
    requires
        0 <= from <= s.len(),
    ensures
        from <= digits_end(s, from) <= s.len(),
        forall|i: int| from <= i < digits_end(s, from) ==> is_digit(s[i]),
        digits_end(s, from) < s.len() ==> !is_digit(s[digits_end(s, from)]),
    decreases s.len() - from,
{
    if from < s.len() && is_digit(s[from]) {
        lemma_digits_end(s, from + 1);
    }
}

/// A number that was read ends inside `s`, after at least one digit.
pub proof fn lemma_number_end(s: Seq<u8>, pos: int)
    requires
        0 <= pos,
        number(s, pos) is Ok,
    ensures
        pos < number(s, pos)->Ok_0.1 < s.len(),
{
    lemma_digits_end(s, pos);
    assert(digits_end(s, pos) == digits_end(s, pos + 1));
}

/// A class that was read ends inside `s`, after its closing bracket.
pub proof fn lemma_class_body_end(s: Seq<u8>, pos: int, acc: Seq<u8>)
    requires
        0 <= pos,
        class_body(s, pos, acc) is Ok,
    ensures
        pos < class_body(s, pos, acc)->Ok_0.1 <= s.len(),
    decreases s.len() - pos,
{
    if pos < s.len() && s[pos] != RIGHT_BRACKET && s[pos] != LEFT_BRACKET {
        if s[pos] == BACKSLASH {
            lemma_class_body_end(s, pos + 2, acc.push(s[pos + 1]));
        } else {
            lemma_class_body_end(s, pos + 1, acc.push(s[pos]));
        }
    }
}

/// Every token takes at least one byte, and none reaches past the end.
pub proof fn lemma_token_advances(s: Seq<u8>, pos: int, classes: Seq<Seq<u8>>)
    requires
        0 <= pos < s.len(),
        token_at(s, pos, classes) is Ok,
    ensures
        pos < token_at(s, pos, classes)->Ok_0.next <= s.len(),
{
    let c = s[pos];
    if c == LEFT_CURLY {
        lemma_number_end(s, pos + 1);
        let p = number(s, pos + 1)->Ok_0.1;
        if s[p] == COMMA {
            lemma_number_end(s, p + 1);
        }
    } else if c == LEFT_BRACKET {
        lemma_class_body_end(s, pos + 1, Seq::empty());
    }
}

/// Reads tokens from `pos` to the end of `s`, after those in `sofar`.
pub open spec fn scan(s: Seq<u8>, pos: int, sofar: Scanned) -> Result<Scanned, ParseErr>
    decreases s.len() - pos,
{
    if pos < 0 || pos >= s.len() {
        Ok(sofar)
    } else {
        match token_at(s, pos, sofar.classes) {
            Err(e) => Err(e),
            Ok(lexeme) => {
                proof {
                    lemma_token_advances(s, pos, sofar.classes);
                }
                scan(
                    s,
                    lexeme.next,
                    Scanned {
                        classes: lexeme.classes,
                        tokens: sofar.tokens.push((pos as usize, lexeme.token)),
                    },
                )
            },
        }
    }
}

/// `i` is the offset of the first byte of `s` outside ASCII.
pub open spec fn first_non_ascii(s: Seq<u8>, i: int) -> bool {
    &&& 0 <= i < s.len()
    &&& s[i] >= 128
    &&& forall|j: int| 0 <= j < i ==> s[j] < 128
}

/// `k` is the first place of `tokens` where a varying token follows a varying token.
pub open spec fn first_varying_pair(tokens: Seq<(usize, Token)>, k: int) -> bool {
    &&& 1 <= k < tokens.len()
    &&& tokens[k - 1].1.varying()
    &&& tokens[k].1.varying()
    &&& forall|j: int| 1 <= j < k ==> !(#[trigger] tokens[j].1.varying() && tokens[j - 1].1.varying())
}

/// What a pattern lexes to: its classes and tokens.
pub struct Lexed {
    pub classes: Seq<Seq<u8>>,
    pub tokens: Seq<Token>,
}

/// The structural rules on a scanned pattern: it is not empty, it starts with
/// a character or a class, and no varying token follows another.
pub open spec fn validated(scanned: Scanned) -> Result<Lexed, ParseErr> {
    let tokens = scanned.tokens;
    if tokens.len() == 0 {
        fail(EMPTY_PATTERN, 0)
    } else if tokens[0].1.varying() {
        fail(VARYING_FIRST, 0)
    } else if exists|k: int| first_varying_pair(tokens, k) {
        fail(VARYING_TWICE, tokens[choose|k: int| first_varying_pair(tokens, k)].0 as int)
    } else {
        Ok(Lexed { classes: scanned.classes, tokens: tokens.map_values(|t: (usize, Token)| t.1) })
    }
}

/// The meaning of a pattern given as bytes.
pub open spec fn tokenized(s: Seq<u8>) -> Result<Lexed, ParseErr> {
    if exists|i: int| first_non_ascii(s, i) {
        fail(NOT_ASCII, choose|i: int| first_non_ascii(s, i))
    } else {
        match scan(s, 0, Scanned { classes: Seq::empty(), tokens: Seq::empty() }) {
            Err(e) => Err(e),
            Ok(scanned) => validated(scanned),
        }
    }
}

/// What holds of each token of a lexed pattern: a class token names a class
/// of the dictionary and gives its length, a range rises, a repeat counts at
/// least two, and every byte is ASCII.
pub open spec fn token_ok(t: Token, classes: Seq<Seq<u8>>) -> bool {
    match t {
        Token::Class { id, len } => 1 <= id <= classes.len() && classes[id - 1].len() == len,
        Token::Range { lower, upper } => lower < upper,
        Token::Repeat(n) => n >= 2,
        Token::Char(c) => c < 128,
    }
}

/// What holds of the classes of a lexed pattern: none occurs twice, none is
/// empty, and all hold ASCII only.
pub open spec fn classes_ok(classes: Seq<Seq<u8>>) -> bool {
    &&& distinct(classes)
    &&& forall|k: int| 0 <= k < classes.len() ==> (#[trigger] classes[k]).len() > 0
    &&& forall|k: int, b: int|
        0 <= k < classes.len() && 0 <= b < classes[k].len() ==> #[trigger] classes[k][b] < 128
}

/// The invariants of a lexed pattern.
pub open spec fn well_formed(lexed: Lexed) -> bool {
    &&& lexed.tokens.len() > 0
    &&& !lexed.tokens[0].varying()
    &&& forall|i: int|
        1 <= i < lexed.tokens.len() ==> !(#[trigger] lexed.tokens[i].varying() && lexed.tokens[i
            - 1].varying())
    &&& forall|i: int|
        0 <= i < lexed.tokens.len() ==> token_ok(#[trigger] lexed.tokens[i], lexed.classes)
    &&& classes_ok(lexed.classes)
}

/// A class body holds the bytes before it and bytes of the pattern, at most
/// one per byte read.
proof fn lemma_class_body_content(s: Seq<u8>, pos: int, acc: Seq<u8>)
    requires
        0 <= pos,
        class_body(s, pos, acc) is Ok,
        forall|i: int| 0 <= i < s.len() ==> s[i] < 128,
        forall|i: int| 0 <= i < acc.len() ==> acc[i] < 128,
    ensures
        forall|i: int|
            0 <= i < class_body(s, pos, acc)->Ok_0.0.len() ==> class_body(s, pos, acc)->Ok_0.0[i]
                < 128,
        class_body(s, pos, acc)->Ok_0.0.len() + 1 <= acc.len() + class_body(s, pos, acc)->Ok_0.1
            - pos,
    decreases s.len() - pos,
{
    if pos < s.len() && s[pos] != RIGHT_BRACKET && s[pos] != LEFT_BRACKET {
        if s[pos] == BACKSLASH {
            lemma_class_body_content(s, pos + 2, acc.push(s[pos + 1]));
        } else {
            lemma_class_body_content(s, pos + 1, acc.push(s[pos]));
        }
    }
}

/// Interning keeps what the dictionary held, where it held it.
pub proof fn lemma_interned_extends(classes: Seq<Seq<u8>>, content: Seq<u8>)
    ensures
        classes.len() <= interned(classes, content).len() <= classes.len() + 1,
        forall|k: int| 0 <= k < classes.len() ==> interned(classes, content)[k] == classes[k],
        1 <= class_id(classes, content) <= interned(classes, content).len(),
        interned(classes, content)[class_id(classes, content) - 1] == content,
        forall|k: int|
            classes.len() <= k < interned(classes, content).len() ==> interned(classes, content)[k]
                == content,
{
    let after = interned(classes, content);
    if classes.contains(content) {
        let i = choose|i: int| 0 <= i < classes.len() && classes[i] == content;
        assert(after[i] == content);
    } else {
        assert(after[classes.len() as int] == content);
    }
}

/// The shorthand classes are not empty and hold ASCII only.
proof fn lemma_shorthand_content(c: u8)
    requires
        shorthand(c) is Some,
    ensures
        0 < shorthand(c)->0.len() <= 63,
        forall|i: int| 0 <= i < shorthand(c)->0.len() ==> shorthand(c)->0[i] < 128,
{
}

/// One token keeps the invariants of what was scanned before it.
proof fn lemma_token_ok(s: Seq<u8>, pos: int, classes: Seq<Seq<u8>>)
    requires
        0 <= pos < s.len() <= usize::MAX,
        forall|i: int| 0 <= i < s.len() ==> s[i] < 128,
        classes_ok(classes),
        classes.len() <= pos,
        token_at(s, pos, classes) is Ok,
    ensures
        ({
            let lexeme = token_at(s, pos, classes)->Ok_0;
            &&& token_ok(lexeme.token, lexeme.classes)
            &&& classes_ok(lexeme.classes)
            &&& lexeme.classes.len() <= lexeme.next
            &&& classes.len() <= lexeme.classes.len()
            &&& forall|k: int| 0 <= k < classes.len() ==> lexeme.classes[k] == classes[k]
        }),
{
    let lexeme = token_at(s, pos, classes)->Ok_0;
    lemma_token_advances(s, pos, classes);
    let c = s[pos];
    if c == LEFT_CURLY {
    } else if lexeme.token is Class {
        let content = if c == BACKSLASH {
            shorthand(s[pos + 1])->0
        } else {
            class_body(s, pos + 1, Seq::empty())->Ok_0.0
        };
        if c == BACKSLASH {
            lemma_shorthand_content(s[pos + 1]);
        } else {
            lemma_class_body_content(s, pos + 1, Seq::empty());
        }
        lemma_interned_extends(classes, content);
        crate::codegen::dict::lemma_class_id(classes, content, class_id(classes, content));
        let after = interned(classes, content);
        assert(lexeme.classes == after);
        assert forall|k: int| 0 <= k < after.len() implies (#[trigger] after[k]).len() > 0 by {
            if k < classes.len() {
                assert(after[k] == classes[k]);
            }
        }
        assert forall|k: int, b: int|
            0 <= k < after.len() && 0 <= b < after[k].len() implies #[trigger] after[k][b]
            < 128 by {
            if k < classes.len() {
                assert(after[k] == classes[k]);
            }
        }
    }
}

/// Scanning keeps the invariants of what was scanned before.
proof fn lemma_scan_ok(s: Seq<u8>, pos: int, sofar: Scanned)
    requires
        0 <= pos <= s.len() <= usize::MAX,
        forall|i: int| 0 <= i < s.len() ==> s[i] < 128,
        classes_ok(sofar.classes),
        sofar.classes.len() <= pos,
        forall|i: int|
            0 <= i < sofar.tokens.len() ==> token_ok(
                (#[trigger] sofar.tokens[i]).1,
                sofar.classes,
            ),
        scan(s, pos, sofar) is Ok,
    ensures
        classes_ok(scan(s, pos, sofar)->Ok_0.classes),
        forall|i: int|
            0 <= i < scan(s, pos, sofar)->Ok_0.tokens.len() ==> token_ok(
                (#[trigger] scan(s, pos, sofar)->Ok_0.tokens[i]).1,
                scan(s, pos, sofar)->Ok_0.classes,
            ),
    decreases s.len() - pos,
{
    if pos < s.len() {
        let lexeme = token_at(s, pos, sofar.classes)->Ok_0;
        lemma_token_advances(s, pos, sofar.classes);
        lemma_token_ok(s, pos, sofar.classes);
        let next = Scanned {
            classes: lexeme.classes,
            tokens: sofar.tokens.push((pos as usize, lexeme.token)),
        };
        assert forall|i: int| 0 <= i < next.tokens.len() implies token_ok(
            (#[trigger] next.tokens[i]).1,
            next.classes,
        ) by {
            if i < sofar.tokens.len() {
                assert(token_ok(sofar.tokens[i].1, sofar.classes));
            }
        }
        lemma_scan_ok(s, lexeme.next, next);
    }
}

/// Every pattern that lexes has the invariants of a lexed pattern.
pub proof fn lemma_tokenized_well_formed(s: Seq<u8>)
    requires
        s.len() <= usize::MAX,
        tokenized(s) is Ok,
    ensures
        well_formed(tokenized(s)->Ok_0),
{
    let start = Scanned { classes: Seq::empty(), tokens: Seq::empty() };
    assert forall|i: int| 0 <= i < s.len() implies s[i] < 128 by {
        if s[i] >= 128 {
            lemma_first_non_ascii_exists(s, i);
        }
    }
    lemma_scan_ok(s, 0, start);
    let scanned = scan(s, 0, start)->Ok_0;
    let lexed = tokenized(s)->Ok_0;
    assert forall|i: int| 1 <= i < lexed.tokens.len() implies !(
    #[trigger] lexed.tokens[i].varying() && lexed.tokens[i - 1].varying()) by {
        if scanned.tokens[i].1.varying() && scanned.tokens[i - 1].1.varying() {
            lemma_first_varying_pair_exists(scanned.tokens, i);
        }
    }
    assert forall|i: int| 0 <= i < lexed.tokens.len() implies token_ok(
        #[trigger] lexed.tokens[i],
        lexed.classes,
    ) by {
        assert(token_ok(scanned.tokens[i].1, scanned.classes));
    }
}

/// Where some byte is outside ASCII, one is the first.
pub proof fn lemma_first_non_ascii_exists(s: Seq<u8>, i: int)
    requires
        0 <= i < s.len(),
        s[i] >= 128,
    ensures
        exists|k: int| first_non_ascii(s, k),
    decreases i,
{
    if exists|j: int| 0 <= j < i && s[j] >= 128 {
        let j = choose|j: int| 0 <= j < i && s[j] >= 128;
        lemma_first_non_ascii_exists(s, j);
    } else {
        assert(first_non_ascii(s, i));
    }
}

/// Where some varying token follows a varying token, one pair is the first.
pub proof fn lemma_first_varying_pair_exists(tokens: Seq<(usize, Token)>, i: int)
    requires
        1 <= i < tokens.len(),
        tokens[i].1.varying(),
        tokens[i - 1].1.varying(),
    ensures
        exists|k: int| first_varying_pair(tokens, k),
    decreases i,
{
    if exists|j: int| 1 <= j < i && #[trigger] tokens[j].1.varying() && tokens[j - 1].1.varying() {
        let j = choose|j: int|
            1 <= j < i && #[trigger] tokens[j].1.varying() && tokens[j - 1].1.varying();
        lemma_first_varying_pair_exists(tokens, j);
    } else {
        assert(first_varying_pair(tokens, i));
    }
}

} // verus!
