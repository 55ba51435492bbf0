use graphql_minify::block_string::BlockStringLines;

fn print_block_string<I: AsRef<str>>(input: I) -> String {
    let mut lines = BlockStringLines::default();

    for line in input.as_ref().lines() {
        lines.push(line.replace(r#"""""#, r#"\""""#));
    }

    graphql_minify::block_string::print_block_string(&lines)
}

#[test]
fn does_not_escape_characters() {
    let str = r" \ / \b \f \n \r \t";
    assert_eq!(print_block_string(str), r#"""" \ / \b \f \n \r \t""""#);
}

#[test]
fn by_default_print_block_strings_as_single_line() {
    let str = r"one liner";
    assert_eq!(print_block_string(str), r#""""one liner""""#);
}

#[test]
fn by_default_print_block_strings_ending_with_triple_quotation_as_multi_line() {
    let str = r#"triple quotation """"#;
    assert_eq!(print_block_string(str), r#""""triple quotation \"""""""#);
}

#[test]
fn correctly_prints_single_line_with_leading_space() {
    let str = "    space-led string";
    assert_eq!(print_block_string(str), r#""""    space-led string""""#);
}

#[test]
fn correctly_prints_single_line_with_leading_space_and_trailing_quotation() {
    let str = "    space-led value \"quoted string\"";
    assert_eq!(
        print_block_string(str),
        r#""""    space-led value "quoted string"
""""#
    );
}

#[test]
fn correctly_prints_single_line_with_trailing_backslash() {
    let str = "backslash \\";
    assert_eq!(
        print_block_string(str),
        r#""""backslash \
""""#
    );
}

#[test]
fn correctly_prints_multi_line_with_internal_indent() {
    let str = "no indent\n with indent";
    assert_eq!(
        print_block_string(str),
        r#""""
no indent
 with indent""""#
    );
}

#[test]
fn correctly_prints_string_with_a_first_line_indentation() {
    let str = ["    first  ", "  line     ", "indentation", "     string"].join("\n");

    assert_eq!(
        print_block_string(&str),
        [
            r#""""    first  "#,
            "  line     ",
            "indentation",
            r#"     string""""#
        ]
        .join("\n")
    );
}

#[test]
fn prints_no_lines_as_empty_block_string() {
    assert_eq!(print_block_string(""), r#""""""""#);
}
