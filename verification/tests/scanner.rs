use byte::chars::char_size;
use byte::errors::Errors;
use byte::matcher::Matcher;
use byte::matchers::MatcherKind;
use byte::span::Source;
use byte::symbols::SymbolTable;
use byte::token::Token;

#[test]
fn utf8_char_size() {
    assert_eq!(char_size("".as_bytes()), 0);
    assert_eq!(char_size("a".as_bytes()), 1);
    assert_eq!(char_size("ab".as_bytes()), 1);
    assert_eq!(char_size("äb".as_bytes()), 2);
    assert_eq!(char_size("気!".as_bytes()), 3);
    assert_eq!(char_size("𝄑!".as_bytes()), 4);

    assert_eq!(
        char_size(&[
            0b1100_0000,
            0b1010_0000,
            0b1011_0000,
            0b1011_1100,
            0b1011_1111,
            0b1001_0000,
            0b1000_1111,
            0b1000_0000,
            0b0011_1111,
        ]),
        8
    );
}

fn check(table: &SymbolTable<i32>, str: &str, size: usize, value: Option<i32>) {
    let actual = table.recognize(str.as_bytes());
    let expected = (size, value.as_ref());
    assert_eq!(actual, expected);
}

fn check_ok(table: &SymbolTable<i32>, str: &str, value: i32) {
    check(table, str, str.len(), Some(value));

    let str_with_suffix = format!("{str}XXX");
    check(table, &str_with_suffix, str.len(), Some(value));
}

#[test]
fn table() {
    let table: &mut SymbolTable<i32> = &mut Default::default();

    check(table, "", 0, None);
    check(table, "abc", 0, None);

    table.set_default(-1);
    check(table, "", 0, Some(-1));
    check(table, "abc", 0, Some(-1));

    table.add("zero", 0);
    table.add("one", 1);
    table.add("two", 2);
    table.add("three", 3);

    table.add("0", 0);
    table.add("00", 0);
    table.add("01", 1);

    table.add("ten", 10);
    table.add("ten+one", 11);

    table.add("0000", 4);
    table.add("000000", 6);

    check(table, "abc", 0, Some(-1));
    check(table, "zer", 0, Some(-1));

    check_ok(table, "zero", 0);
    check_ok(table, "one", 1);
    check_ok(table, "two", 2);
    check_ok(table, "three", 3);

    check_ok(table, "0", 0);
    check_ok(table, "00", 0);
    check_ok(table, "01", 1);

    check_ok(table, "ten", 10);
    check_ok(table, "ten+one", 11);

    check_ok(table, "0000", 4);
    check_ok(table, "000000", 6);

    check(table, "0", 1, Some(0));
    check(table, "00", 2, Some(0));
    check(table, "000", 2, Some(0));
    check(table, "0000", 4, Some(4));
    check(table, "00000", 4, Some(4));
    check(table, "000000", 6, Some(6));
    check(table, "0000000", 6, Some(6));

    check(table, "ten", 3, Some(10));
    check(table, "ten+", 3, Some(10));
    check(table, "ten+o", 3, Some(10));
    check(table, "ten+on", 3, Some(10));
    check(table, "ten+one", 7, Some(11));
    check(table, "ten+one!", 7, Some(11));

    assert_eq!(table.add("0000", -4), Some(4));
    check(table, "00000", 4, Some(-4));
}

fn common_matcher() -> Matcher {
    let mut matcher = Matcher::new();
    matcher.add_word_chars("abcdefghijklmnopqrstuvwxyzABCDEFGHIJKLMNOPQRSTUVWXYZ_");
    matcher.add_word_next_chars("0123456789");
    for symbol in [",", ";", ":", "(", ")", "[", "]", "{", "}", "+", "-", "*", "/", "=", "."] {
        matcher.add_symbol(symbol);
    }
    matcher
}

fn tokenize(input: &str) -> Vec<Token> {
    let mut matcher = common_matcher();
    matcher.add_matcher(MatcherKind::Comment);
    matcher.add_matcher(MatcherKind::Literal);
    matcher.add_matcher(MatcherKind::Integer);

    let input = Source::new("test", input);
    let mut cursor = input.span();
    let mut errors = Errors::new();
    let mut output = Vec::new();
    while let Some((token, ..)) = matcher.scan(&mut cursor, &mut errors) {
        output.push(token);
    }

    if errors.len() > 0 {
        panic!("Scanning generated errors: {}", errors.to_string());
    }

    assert!(cursor.at_end());
    output
}

fn word(s: &str) -> Token {
    Token::Word(s.to_string())
}

fn sym(s: &str) -> Token {
    Token::Symbol(s.to_string())
}

#[test]
fn mod_empty() {
    let actual = tokenize("");
    assert!(actual.len() == 0);

    let actual = tokenize("    ");
    assert!(actual.len() == 0);

    let actual = tokenize("\n");
    assert!(actual.len() == 0);

    let actual = tokenize("\r");
    assert!(actual.len() == 0);

    let actual = tokenize("\r\n");
    assert!(actual.len() == 0);

    let actual = tokenize("\n    ");
    assert!(actual.len() == 0);

    let actual = tokenize("    \n");
    assert!(actual.len() == 0);

    let actual = tokenize("\t\n\n\r\n    \r    \n");
    assert!(actual.len() == 0);
}

#[test]
fn simple_scanning() {
    let actual = tokenize("a, b (\n\tsome_name123\n)");
    let expected = vec![
        word("a"),
        sym(","),
        word("b"),
        sym("("),
        Token::Break(4),
        word("some_name123"),
        Token::Break(0),
        sym(")"),
    ];
    assert_eq!(actual, expected);
}

#[test]
fn with_matchers() {
    let input = vec![
        "# some single line comment",
        "print 'hello world!'",
        "",
        "#(",
        "    this is a multiline comment (with nested parenthesis)",
        ")",
        "",
        "print 1, 2, 3",
    ];

    let actual = tokenize(input.join("\n").as_str());
    let expected = vec![
        Token::Comment,
        Token::Break(0),
        word("print"),
        Token::Literal("hello world!".to_string()),
        Token::Break(0),
        Token::Comment,
        Token::Break(0),
        word("print"),
        Token::Integer(1),
        sym(","),
        Token::Integer(2),
        sym(","),
        Token::Integer(3),
    ];
    assert_eq!(actual, expected);
}

#[test]
fn line_and_comments() {
    let input = vec![
        "",
        "",
        "# comment 1",
        "",
        "    ",
        "a",
        "",
        "    ",
        "#(",
        "    comment 2",
        ")b",
        "",
        "\t",
        "c",
        "",
        "# comment 3",
    ];

    let actual = tokenize(input.join("\n").as_str());
    let expected = vec![
        Token::Comment,
        Token::Break(0),
        word("a"),
        Token::Break(0),
        Token::Comment,
        word("b"),
        Token::Break(0),
        word("c"),
        Token::Break(0),
        Token::Comment,
    ];
    assert_eq!(actual, expected);
}

#[test]
fn line_indent() {
    let input = vec![
        "a", "b", "", "  #", "  c", "", "    d", "", "    ", "    e", "", " f", "    ",
    ];
    let actual = tokenize(input.join("\n").as_str());
    let expected = vec![
        word("a"),
        Token::Break(0),
        word("b"),
        Token::Break(2),
        Token::Comment,
        Token::Break(2),
        word("c"),
        Token::Break(4),
        word("d"),
        Token::Break(4),
        word("e"),
        Token::Break(1),
        word("f"),
        Token::Break(0),
    ];
    assert_eq!(actual, expected);
}
