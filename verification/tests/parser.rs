use nccl::{
    parse_string, parse_string_with, ErrorKind, NcclError, Pair, Parser, Scanner, Token,
    TokenKind,
};

fn leaf(key: &str) -> Pair {
    Pair { key: key.to_string(), value: vec![] }
}

fn node(key: &str, value: Vec<Pair>) -> Pair {
    Pair { key: key.to_string(), value }
}

fn top(value: Vec<Pair>) -> Pair {
    node("__top_level__", value)
}

fn tokens(text: &str) -> Vec<Token> {
    Scanner::new(text.to_string()).scan_tokens().unwrap()
}

fn wrong_level(line: u64) -> NcclError {
    NcclError::new(ErrorKind::IndentationError, "Incorrect level of indentation found", line)
}

fn name(text: &str) -> Token {
    Token::new(TokenKind::Name(text.to_string()), text.to_string(), 0)
}

fn plain(kind: TokenKind) -> Token {
    Token::new(kind, String::new(), 0)
}

#[test]
fn empty_document_is_an_empty_tree() {
    assert_eq!(parse_string("").unwrap(), top(vec![]));
    assert_eq!(parse_string("# nothing\n\n").unwrap(), top(vec![]));
}

#[test]
fn nesting_follows_indentation() {
    assert_eq!(parse_string("a\n    b\n").unwrap(), top(vec![node("a", vec![leaf("b")])]));
}

#[test]
fn end_to_end_example() {
    let text = "server\n    domain\n        example.com\n        www.example.com\n    port\n        80\n        443\n";
    let root = parse_string(text).unwrap();
    assert_eq!(
        root,
        top(vec![node(
            "server",
            vec![
                node("domain", vec![leaf("example.com"), leaf("www.example.com")]),
                node("port", vec![leaf("80"), leaf("443")]),
            ]
        )])
    );
    assert_eq!(root["server"]["port"].keys_as::<i64>().unwrap(), vec![80, 443]);
}

#[test]
fn siblings_and_returns_to_shallower_levels() {
    let text = "a\n\tb\n\t\tc\n\t\td\n\te\nf\n\tg\n";
    assert_eq!(
        parse_string(text).unwrap(),
        top(vec![
            node("a", vec![node("b", vec![leaf("c"), leaf("d")]), leaf("e")]),
            node("f", vec![leaf("g")]),
        ])
    );
}

#[test]
fn return_to_the_top_from_any_depth() {
    assert_eq!(
        parse_string("a\n\tb\n\t\tc\nd\n").unwrap(),
        top(vec![node("a", vec![node("b", vec![leaf("c")])]), leaf("d")])
    );
}

#[test]
fn repeated_value_is_one_leaf() {
    assert_eq!(
        parse_string("a\n  b\n  b\na\n  b\n  c\n").unwrap(),
        top(vec![node("a", vec![leaf("b"), leaf("c")])])
    );
}

#[test]
fn quoted_and_bare_values_mix() {
    assert_eq!(
        parse_string("\"a key\"\n  plain value\n  \"quoted\\nvalue\"\n").unwrap(),
        top(vec![node("a key", vec![leaf("plain value"), leaf("quoted\nvalue")])])
    );
}

#[test]
fn key_with_inline_value_starts_afresh() {
    assert_eq!(
        parse_string("\"key\": value\n").unwrap(),
        top(vec![leaf("key"), leaf("value")])
    );
    assert_eq!(
        parse_string("a\n  \"key\": value\n").unwrap(),
        top(vec![node("a", vec![leaf("key")]), leaf("value")])
    );
}

#[test]
fn value_on_the_next_line_is_no_inline_value() {
    assert_eq!(
        parse_string("a\n\tb\nc\n\td\n").unwrap(),
        top(vec![node("a", vec![leaf("b")]), node("c", vec![leaf("d")])])
    );
}

#[test]
fn step_of_two_levels_is_an_error() {
    assert_eq!(parse_string("a\n\t\tb\n").unwrap_err(), vec![wrong_level(2)]);
    assert_eq!(parse_string("a\n\tb\n\t\t\tc\n").unwrap_err(), vec![wrong_level(3)]);
}

#[test]
fn every_wrong_step_is_reported() {
    assert_eq!(
        parse_string("a\n\t\tb\nc\n\t\t\td\ne\n\tf\n\t\t\t\tg\n").unwrap_err(),
        vec![wrong_level(2), wrong_level(4), wrong_level(7)]
    );
}

#[test]
fn wrong_line_is_read_at_the_depth_before_it() {
    assert_eq!(
        parse_string("a\n\tb\n\t\t\tc\n\t\td\n").unwrap_err(),
        vec![wrong_level(3)]
    );
}

#[test]
fn empty_line_counts_as_depth_zero() {
    assert_eq!(parse_string("a\n\tb\n\n\t\tc\n").unwrap_err(), vec![wrong_level(4)]);
    assert_eq!(
        parse_string("a\n\tb\n\n\tc\n").unwrap(),
        top(vec![node("a", vec![leaf("b"), leaf("c")])])
    );
}

#[test]
fn scan_error_is_the_only_error() {
    assert_eq!(
        parse_string("a\n\t\tb\n \"open").unwrap_err(),
        vec![NcclError::new(ErrorKind::IndentationError, "Expected tabs, found spaces", 3)]
    );
    assert_eq!(
        parse_string("a\n\"open").unwrap_err(),
        vec![NcclError::new(ErrorKind::ParseError, "Unterminated string", 2)]
    );
}

#[test]
fn parser_takes_what_the_scanner_gives() {
    assert_eq!(
        Parser::new(tokens("a\n  b\n")).parse().unwrap(),
        top(vec![node("a", vec![leaf("b")])])
    );
}

#[test]
fn parser_builds_onto_a_tree() {
    let base = node("base", vec![node("a", vec![leaf("x")])]);
    assert_eq!(
        Parser::new_with(tokens("a\n  y\nb\n"), base).parse().unwrap(),
        node("base", vec![node("a", vec![leaf("x"), leaf("y")]), leaf("b")])
    );
}

#[test]
fn parser_stops_at_eof() {
    let stream = vec![name("a"), plain(TokenKind::EOF), name("b")];
    assert_eq!(Parser::new(stream).parse().unwrap(), top(vec![leaf("a")]));
}

#[test]
fn parser_accepts_tokens_without_eof() {
    let stream = vec![
        name("a"),
        plain(TokenKind::Newline),
        plain(TokenKind::Indent),
        name("b"),
        plain(TokenKind::Newline),
        plain(TokenKind::Indent),
    ];
    assert_eq!(Parser::new(stream).parse().unwrap(), top(vec![node("a", vec![leaf("b")])]));
    assert_eq!(Parser::new(vec![]).parse().unwrap(), top(vec![]));
}

#[test]
fn parser_counts_lines_itself() {
    let stream = vec![
        name("a"),
        plain(TokenKind::Newline),
        plain(TokenKind::Newline),
        plain(TokenKind::Indent),
        plain(TokenKind::Indent),
        name("b"),
    ];
    assert_eq!(Parser::new(stream).parse().unwrap_err(), vec![wrong_level(3)]);
}

#[test]
fn inline_value_needs_no_indent_or_newline_between() {
    let with_colon = vec![name("a"), plain(TokenKind::Newline), plain(TokenKind::Indent), name("k"), plain(TokenKind::Colon), name("v")];
    assert_eq!(
        Parser::new(with_colon).parse().unwrap(),
        top(vec![node("a", vec![leaf("k")]), leaf("v")])
    );
    let with_indent = vec![name("a"), plain(TokenKind::Newline), plain(TokenKind::Indent), name("k"), plain(TokenKind::Indent), name("v")];
    assert_eq!(
        Parser::new(with_indent).parse().unwrap(),
        top(vec![node("a", vec![leaf("k"), leaf("v")])])
    );
}

#[test]
fn line_endings_do_not_matter() {
    let unix = "server\n\tport\n\t\t80\n\"a\nb\"\n";
    let dos = "server\r\n\tport\r\n\t\t80\r\n\"a\r\nb\"\r\n";
    assert_eq!(parse_string(unix), parse_string(dos));
    assert_eq!(
        parse_string(dos).unwrap(),
        top(vec![node("server", vec![node("port", vec![leaf("80")])]), leaf("a\nb")])
    );
    assert_eq!(parse_string("a\n\t\tb\n"), parse_string("a\r\n\t\tb\r\n"));
}

#[test]
fn document_parsed_onto_a_tree_keeps_the_tree() {
    let base = parse_string("block\n  one\n  two\nother\n  x\n").unwrap();
    let merged = parse_string_with("user\n  name\nblock\n  three\n", base).unwrap();
    assert_eq!(
        merged,
        top(vec![
            node("block", vec![leaf("one"), leaf("two"), leaf("three")]),
            node("other", vec![leaf("x")]),
            node("user", vec![leaf("name")]),
        ])
    );
    assert!(merged.has_path(&["block", "one"]));
    assert!(merged.has_path(&["other", "x"]));
}

#[test]
fn document_parsed_onto_its_own_tree_adds_nothing() {
    let text = "a\n  b\n    c\n  d\ne\n";
    let once = parse_string(text).unwrap();
    let twice = parse_string_with(text, once.clone()).unwrap();
    assert_eq!(twice, once);
}

#[test]
fn failed_parse_onto_a_tree_gives_errors_only() {
    let base = parse_string("a\n").unwrap();
    assert_eq!(parse_string_with("b\n\t\tc\n", base).unwrap_err(), vec![wrong_level(2)]);
}
