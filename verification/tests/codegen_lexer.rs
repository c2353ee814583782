use bonk::codegen::lexer::{ParseErr, Token};
use bonk::codegen::lexer::Lexer as PatternLexer;

fn ok_parse(src: &str, v: Vec<Token>) {
    assert_eq!(PatternLexer::tokenize(src).unwrap().1, v);
}

fn err_parse(src: &str) -> ParseErr {
    let err = PatternLexer::tokenize(src).unwrap_err();
    println!("error: {}", err.msg);
    println!("  |");
    println!("  | {}", src);
    println!("  | {}^", " ".repeat(err.offset));
    println!("  |");
    err
}

#[test]
fn misc_errors() {
    err_parse("");
    err_parse("]");
    err_parse("}");
    err_parse("\\s");
    err_parse("definitely ascii❤");
}

#[test]
fn literal() {
    ok_parse("\x00", vec![Token::Char(0)]);
    ok_parse("\x7F", vec![Token::Char(127)]);
    ok_parse(
        "foo",
        vec![Token::Char(b'f'), Token::Char(b'o'), Token::Char(b'o')],
    );
    ok_parse(
        r"\H\h\A\a\d",
        vec![
            Token::Class { len: 16, id: 1 },
            Token::Class { len: 16, id: 2 },
            Token::Class { len: 26, id: 3 },
            Token::Class { len: 26, id: 4 },
            Token::Class { len: 10, id: 5 },
        ],
    );
    ok_parse(
        r"\[\]\{\}",
        vec![
            Token::Char(b'['),
            Token::Char(b']'),
            Token::Char(b'{'),
            Token::Char(b'}'),
        ],
    );
}

#[test]
fn character_class() {
    ok_parse(
        "[foo][bar]",
        vec![
            Token::Class { id: 1, len: 3 },
            Token::Class { id: 2, len: 3 },
        ],
    );
    ok_parse(r"[\\]", vec![Token::Class { id: 1, len: 1 }]);
    ok_parse(r"[\[\]]", vec![Token::Class { id: 1, len: 2 }]);
    err_parse("[");
    err_parse("[\\a]");
}

#[test]
fn repeat() {
    ok_parse("a{3}", vec![Token::Char(b'a'), Token::Repeat(3)]);
    err_parse("a{12,}");
    err_parse("{1}");
    err_parse("a{0}");
    err_parse("a{234092348903248032948392342349089}");
}

#[test]
fn range() {
    ok_parse(
        "a{3,5}",
        vec![Token::Char(b'a'), Token::Range { lower: 3, upper: 5 }],
    );
    ok_parse(
        "a{30,50}",
        vec![
            Token::Char(b'a'),
            Token::Range {
                lower: 30,
                upper: 50,
            },
        ],
    );
    ok_parse(
        r"\a{1,10}",
        vec![
            Token::Class { id: 1, len: 26 },
            Token::Range {
                lower: 1,
                upper: 10,
            },
        ],
    );
    err_parse("a{}");
    err_parse("a{,}");
    err_parse("a{12,12}");
    err_parse("a{3,1}");
    err_parse("a{1,234092348903248032948392342349089}");
}

fn fails(src: &str, msg: &str, offset: usize) {
    let err = PatternLexer::tokenize(src).unwrap_err();
    assert_eq!((err.msg, err.offset), (msg, offset), "pattern {:?}", src);
}

#[test]
fn empty_pattern_is_an_error_at_the_start() {
    fails("", "pattern should be nonempty", 0);
}

#[test]
fn non_ascii_is_an_error_at_its_byte() {
    let msg = "pattern should only contain ASCII characters";
    fails("definitely ascii❤", msg, 16);
    fails("é", msg, 0);
    fails("a{2}é]", msg, 4);
    // The check for ASCII comes before everything else.
    fails("]é", msg, 1);
}

#[test]
fn varying_tokens_need_something_to_vary() {
    fails("{2}", "pattern should begin with a character or character class", 0);
    fails("{2,3}a", "pattern should begin with a character or character class", 0);
    let msg = "ranges and repeats should be preceded by characters or character classes";
    fails("[ab]{2}{3}", msg, 7);
    fails("a{2}{3,4}", msg, 4);
    fails("a{2}b{3,4}{5}{6}", msg, 10);
}

#[test]
fn range_bounds_at_the_boundary() {
    ok_parse("a{1,2}", vec![Token::Char(b'a'), Token::Range { lower: 1, upper: 2 }]);
    ok_parse("a{0,1}", vec![Token::Char(b'a'), Token::Range { lower: 0, upper: 1 }]);
    fails(
        "a{3,3}",
        "a range's bounds should not be equal; consider using the repeat syntax",
        1,
    );
    fails("a{5,3}", "a range's lower bound should be less the upper bound", 1);
    ok_parse("a{2}", vec![Token::Char(b'a'), Token::Repeat(2)]);
    let msg = "number of repeats in a repetition should be greater than 1";
    fails("a{1}", msg, 1);
    fails("ab{0}", msg, 2);
    ok_parse("a{007}", vec![Token::Char(b'a'), Token::Repeat(7)]);
}

#[test]
fn patterns_that_end_too_early() {
    let msg = "unexpected end of input";
    fails("a\\", msg, 1);
    fails("a{", msg, 1);
    fails("a{12", msg, 3);
    fails("a{1,", msg, 3);
    fails("a{1,22", msg, 5);
    fails("a[bc", msg, 3);
    fails("a[b\\", msg, 3);
    fails("[", msg, 0);
}

#[test]
fn malformed_repeats_and_ranges() {
    fails("a{x}", "expected positive integer", 2);
    fails("a{}", "expected positive integer", 2);
    fails("a{1,x}", "expected positive integer", 4);
    fails("a{,}", "expected positive integer", 2);
    fails("a{1,2]", "expected closing '}' for range", 5);
    fails("a{2]", "expected closing '}' for repeat", 3);
    fails("a{2 }", "expected closing '}' for repeat", 3);
}

#[test]
fn numbers_too_large_for_a_word() {
    let msg = "range bounds should not exceed a usize";
    fails("a{234092348903248032948392342349089}", msg, 2);
    fails("ab{1,234092348903248032948392342349089}", msg, 5);
    // The pattern has to go on after the number before its size matters.
    fails("a{234092348903248032948392342349089", "unexpected end of input", 34);
    let max = format!("a{{{}}}", usize::MAX);
    ok_parse(&max, vec![Token::Char(b'a'), Token::Repeat(usize::MAX)]);
}

#[test]
fn escapes() {
    fails(
        "a\\q",
        "'\\' should be followed by '\\', 'd', 'A', 'a', 'H', 'h', or 'w'",
        2,
    );
    ok_parse("\\\\", vec![Token::Char(b'\\')]);
    ok_parse("\\w", vec![Token::Class { id: 1, len: 63 }]);
    let (dict, _) = PatternLexer::tokenize("\\w\\h\\H").unwrap();
    assert_eq!(
        dict.get(1).unwrap().as_slice(),
        b"ABCDEFGHIJKLMNOPQRSTUVWXYZabcdefghijklmnopqrstuvwxyz0123456789_"
    );
    assert_eq!(dict.get(2).unwrap().as_slice(), b"0123456789abcdef");
    assert_eq!(dict.get(3).unwrap().as_slice(), b"0123456789ABCDEF");
    assert_eq!(dict.get(0), None);
    assert_eq!(dict.get(4), None);
}

#[test]
fn bracket_classes() {
    fails("[a[b]", "'[' should be preceded with a '\\' in character classes", 2);
    fails(
        "[a\\b]",
        "'\\' should be followed by ']', '[', or '\\' in character classes",
        2,
    );
    fails("a[]", "character classes should contain at least one character", 1);
    fails("a]", "unexpected ']'", 1);
    fails("a}", "unexpected '}'", 1);
    let (dict, tokens) = PatternLexer::tokenize("[{}a\\]\\[\\\\a]").unwrap();
    assert_eq!(tokens, vec![Token::Class { id: 1, len: 7 }]);
    assert_eq!(dict.get(1).unwrap().as_slice(), b"{}a][\\a");
}

#[test]
fn equal_classes_share_an_id_and_others_do_not() {
    let (dict, tokens) = PatternLexer::tokenize("[ab][cd][ab][ef]\\d[0123456789]").unwrap();
    assert_eq!(
        tokens,
        vec![
            Token::Class { id: 1, len: 2 },
            Token::Class { id: 2, len: 2 },
            Token::Class { id: 1, len: 2 },
            Token::Class { id: 3, len: 2 },
            Token::Class { id: 4, len: 10 },
            Token::Class { id: 4, len: 10 },
        ]
    );
    assert_eq!(dict.len(), 4);
    assert_eq!(dict.id_of(b"ab"), Some(1));
    assert_eq!(dict.id_of(b"cd"), Some(2));
    assert_eq!(dict.id_of(b"ef"), Some(3));
    assert_eq!(dict.id_of(b"ba"), None);
    // Order matters: the same bytes in another order are another class.
    let (_, tokens) = PatternLexer::tokenize("[ab][ba]").unwrap();
    assert_eq!(
        tokens,
        vec![Token::Class { id: 1, len: 2 }, Token::Class { id: 2, len: 2 }]
    );
}

#[test]
fn varying_tokens_are_told_apart() {
    assert!(Token::Repeat(2).is_varying());
    assert!(Token::Range { lower: 1, upper: 2 }.is_varying());
    assert!(!Token::Char(b'a').is_varying());
    assert!(!Token::Class { id: 1, len: 3 }.is_varying());
    assert_eq!(ParseErr::new("m", 3), ParseErr { msg: "m", offset: 3 });
}
