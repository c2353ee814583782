use bonk::lexer::{Failure, LexErr, Lexer, Tok};

const DIGITS: &str = "0123456789";
const UPPERCASE_ALPHABET: &str = "ABCDEFGHIJKLMNOPQRSTUVWXYZ";
const LOWERCASE_ALPHABET: &str = "abcdefghijklmnopqrstuvwxyz";
const LOWERCASE_HEX: &str = "0123456789abcdef";
const UPPERCASE_HEX: &str = "0123456789ABCDEF";

fn class(content: &str) -> Tok {
    Tok::Class(content.to_owned())
}

#[test]
fn empty() {
    assert_eq!(Lexer::new("").parse(), Ok(vec![]))
}

#[test]
fn lexer_literal() {
    assert_eq!(
        Lexer::new("foo").parse(),
        Ok(vec![Tok::Char('f'), Tok::Char('o'), Tok::Char('o')])
    );
    assert_eq!(
        Lexer::new(r"\H\h\A\a\d").parse(),
        Ok(vec![
            class(UPPERCASE_HEX),
            class(LOWERCASE_HEX),
            class(UPPERCASE_ALPHABET),
            class(LOWERCASE_ALPHABET),
            class(DIGITS)
        ])
    );
    assert_eq!(
        Lexer::new(r"\[\]\(\)\{\}").parse(),
        Ok(vec![
            Tok::Char('['),
            Tok::Char(']'),
            Tok::Char('('),
            Tok::Char(')'),
            Tok::Char('{'),
            Tok::Char('}'),
        ])
    );
}

#[test]
fn lexer_character_class() {
    assert_eq!(Lexer::new("[foo]").parse(), Ok(vec![class("foo")]));
    assert_eq!(
        Lexer::new("[foo][bar]").parse(),
        Ok(vec![class("foo"), class("bar")])
    );
}

#[test]
fn lexer_range() {
    assert_eq!(Lexer::new("{3}").parse(), Ok(vec![Tok::Repeat(3)]));
    assert_eq!(Lexer::new("{3,5}").parse(), Ok(vec![(Tok::Range(3, 5))]));
    assert_eq!(
        Lexer::new("{30,50}").parse(),
        Ok(vec![(Tok::Range(30, 50))])
    );
}

#[test]
fn group() {
    assert_eq!(
        Lexer::new("(a)").parse(),
        Ok(vec![Tok::Group(vec![Tok::Char('a')])])
    );
    assert_eq!(
        Lexer::new("([ab]c)").parse(),
        Ok(vec![Tok::Group(vec![class("ab"), Tok::Char('c')])])
    );
    assert_eq!(
        Lexer::new("(a)(b)(c)").parse(),
        Ok(vec![
            Tok::Group(vec![Tok::Char('a')]),
            Tok::Group(vec![Tok::Char('b')]),
            Tok::Group(vec![Tok::Char('c')])
        ])
    );
}

#[test]
fn back_ref() {
    assert_eq!(
        Lexer::new(r"(a)\1").parse(),
        Ok(vec![Tok::Group(vec![Tok::Char('a')]), Tok::BackRef(1)])
    );
}

#[test]
fn user() {
    assert_eq!(
        Lexer::new(r"SKY-(\A)\A{2}\1-\d{4}").parse(),
        Ok(vec![
            Tok::Char('S'),
            Tok::Char('K'),
            Tok::Char('Y'),
            Tok::Char('-'),
            Tok::Group(vec![class(UPPERCASE_ALPHABET)]),
            class(UPPERCASE_ALPHABET),
            Tok::Repeat(2),
            Tok::BackRef(1),
            Tok::Char('-'),
            class(DIGITS),
            Tok::Repeat(4)
        ])
    );
}

fn err(msg: &'static str, offset: usize) -> Result<Vec<Tok>, LexErr> {
    Err(LexErr { msg, offset })
}

#[test]
fn extended_errors_carry_byte_offsets() {
    assert_eq!(Lexer::new("a)").parse(), err("unexpected )", 1));
    assert_eq!(Lexer::new("ab]").parse(), err("unexpected ]", 2));
    assert_eq!(Lexer::new("}").parse(), err("unexpected }", 0));
    assert_eq!(Lexer::new("a\\").parse(), err("unexpected end of input", 1));
    assert_eq!(
        Lexer::new("a\\q").parse(),
        err(
            "backslashes must be followed by a '\\', 'd', 'A', 'a', 'H', or 'h'",
            1
        )
    );
    assert_eq!(Lexer::new("{").parse(), err("expected number after {", 0));
    assert_eq!(Lexer::new("{x}").parse(), err("expected number after {", 0));
    assert_eq!(
        Lexer::new("{1,}").parse(),
        err("range must be provided 2 numbers", 0)
    );
    assert_eq!(
        Lexer::new("{2,2}").parse(),
        err(
            "bounds cannot be equal in a range; consider using the repetition syntax",
            0
        )
    );
    assert_eq!(
        Lexer::new("{3,2}").parse(),
        err("lower bound must be less than upper bound", 0)
    );
    assert_eq!(
        Lexer::new("{1,2").parse(),
        err("expected closing '}' for range", 0)
    );
    assert_eq!(
        Lexer::new("{1").parse(),
        err("expected closing '}' for repetition", 0)
    );
    assert_eq!(
        Lexer::new("a[]").parse(),
        err("character class must contain a nonzero amount of characters", 1)
    );
    assert_eq!(
        Lexer::new("a[b").parse(),
        err("opening '[' has no corresponding closing ']'", 1)
    );
    assert_eq!(
        Lexer::new("()").parse(),
        err("group must contain a nonzero amount of characters", 0)
    );
    assert_eq!(
        Lexer::new("(a").parse(),
        err("opening '(' has no corresponding closing ')'", 0)
    );
}

#[test]
fn extended_offsets_count_bytes_not_characters() {
    // 'é' takes two bytes, so the stray bracket stands at byte 2.
    assert_eq!(Lexer::new("é]").parse(), err("unexpected ]", 2));
    // An error inside a group is reported where it stands in the whole pattern.
    assert_eq!(Lexer::new("ab(c])").parse(), err("unexpected ]", 4));
    assert_eq!(Lexer::new("é(é(}))").parse(), err("unexpected }", 6));
    assert_eq!(
        Lexer::new("é(é(})").parse(),
        err("opening '(' has no corresponding closing ')'", 2)
    );
    assert_eq!(
        Lexer::new("é").parse(),
        Ok(vec![Tok::Char('é')])
    );
}

#[test]
fn extended_nested_brackets_and_groups() {
    assert_eq!(Lexer::new("[a[b]c]").parse(), Ok(vec![class("a[b]c")]));
    assert_eq!(
        Lexer::new("((a)b)").parse(),
        Ok(vec![Tok::Group(vec![
            Tok::Group(vec![Tok::Char('a')]),
            Tok::Char('b')
        ])])
    );
    assert_eq!(Lexer::new(r"\12a").parse(), Ok(vec![Tok::BackRef(12), Tok::Char('a')]));
    assert_eq!(Lexer::new("{0}").parse(), Ok(vec![Tok::Repeat(0)]));
}

#[test]
fn extended_numbers_too_large_are_a_failure_of_their_own() {
    let huge = "{234092348903248032948392342349089}";
    assert_eq!(Lexer::new(huge).try_parse(), Err(Failure::Overflow));
    assert_eq!(Lexer::new("a(b\\99999999999999999999999)").try_parse(), Err(Failure::Overflow));
    assert_eq!(Lexer::new("{1,99999999999999999999999}").try_parse(), Err(Failure::Overflow));
    // An error before the number comes first.
    assert_eq!(
        Lexer::new("]{99999999999999999999999}").try_parse(),
        Err(Failure::Error(LexErr::new("unexpected ]", 0)))
    );
    let max = format!("{{{}}}", usize::MAX);
    assert_eq!(Lexer::new(&max).try_parse(), Ok(vec![Tok::Repeat(usize::MAX)]));
    assert_eq!(Lexer::new("(a){2}").try_parse(), Lexer::new("(a){2}").parse().map_err(Failure::Error));
}

#[test]
fn extended_tokens_can_be_copied() {
    let toks = Lexer::new(r"a([bc]\d(e){2,3})\1").parse().unwrap();
    let copies: Vec<Tok> = toks.iter().map(|tok| tok.clone()).collect();
    assert_eq!(copies, toks);
    assert_eq!(toks.len(), 3);
}
