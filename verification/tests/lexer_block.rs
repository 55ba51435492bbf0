use graphql_minify::lexer::{parse_block_string, string_token, LexingError};

#[test]
fn block_string_is_dedented_and_printed() {
    let rest = "  hello\n    world\n  \"\"\" rest";
    let (printed, consumed) = parse_block_string(rest);
    assert_eq!(printed, "\"\"\"  hello\nworld\"\"\"");
    assert_eq!(consumed, 23);
    assert_eq!(&rest[consumed..], " rest");
}

#[test]
fn block_string_keeps_escaped_delimiter() {
    let rest = "a \\\"\"\" b\"\"\"";
    let (printed, consumed) = parse_block_string(rest);
    assert_eq!(printed, "\"\"\"a \\\"\"\" b\"\"\"");
    assert_eq!(consumed, rest.len());
}

#[test]
fn unterminated_block_string_takes_everything() {
    let (printed, consumed) = parse_block_string("abc");
    assert_eq!(printed, "\"\"\"abc\"\"\"");
    assert_eq!(consumed, 3);
}

#[test]
fn carriage_returns_split_lines() {
    let (printed, consumed) = parse_block_string("x\r\n  y\r  z\"\"\"");
    assert_eq!(printed, "\"\"\"x\ny\nz\"\"\"");
    assert_eq!(consumed, 13);
}

#[test]
fn blank_block_string_prints_empty() {
    let (printed, consumed) = parse_block_string("  \n   \n\"\"\"");
    assert_eq!(printed, "\"\"\"\"\"\"");
    assert_eq!(consumed, 10);
}

#[test]
fn block_string_ending_with_quote_gets_a_line_feed() {
    let (printed, _) = parse_block_string("say \"hi\"\n\"\"\"");
    assert_eq!(printed, "\"\"\"say \"hi\"\n\"\"\"");
    // four quotes close the block string at the first three
    let (printed, consumed) = parse_block_string("say \"hi\"\"\"\"");
    assert_eq!(printed, "\"\"\"say \"hi\"\"\"");
    assert_eq!(consumed, 10);
}

#[test]
fn leading_line_feed_when_later_lines_are_indented() {
    let (printed, _) = parse_block_string("\n  a\n    b\"\"\"");
    assert_eq!(printed, "\"\"\"\na\n  b\"\"\"");
}

#[test]
fn minified_block_string_reads_back_the_same() {
    let sources = [
        "\n    Hello,\n      World!\n\n    Yours,\n      GraphQL.\n  \"\"\"",
        "  first\n    second \\\"\"\" \"\n\"\"\"",
        "ends with backslash \\\n\"\"\"",
        "x\r\n\r\n  y\"\"\" trailing",
        "\"quoted\"\"\"\"",
    ];
    for source in sources {
        let (printed, _) = parse_block_string(source);
        let (again, consumed) = parse_block_string(&printed[3..]);
        assert_eq!(again, printed);
        assert_eq!(consumed, printed.len() - 3);
    }
}

#[test]
fn string_token_accepts_single_line() {
    assert_eq!(string_token("\"abc\"", 3..8), Ok("\"abc\""));
}

#[test]
fn string_token_rejects_line_breaks() {
    assert_eq!(
        string_token("\"a\nb\"", 4..9),
        Err(LexingError::UnterminatedString(4..9))
    );
    assert_eq!(
        string_token("\"a\rb\"", 0..5),
        Err(LexingError::UnterminatedString(0..5))
    );
}

#[test]
fn lexing_error_defaults_to_unknown_token() {
    assert_eq!(LexingError::default(), LexingError::UnknownToken);
    let e = LexingError::UnterminatedString(1..2);
    assert_eq!(e.clone(), e);
}
