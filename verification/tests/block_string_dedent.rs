use graphql_minify::block_string::{dedent_block_lines_mut, BlockStringLines};

fn get_dedented_vec(lines: &[&str]) -> Vec<String> {
    let mut bsl = BlockStringLines::with_capacity(lines.len());
    for line in lines {
        bsl.push(String::from(*line));
    }
    dedent_block_lines_mut(&mut bsl);
    bsl.lines()
}

#[test]
fn does_not_dedent_first_line() {
    assert_eq!(get_dedented_vec(&["  a"]), &["  a"]);
    assert_eq!(get_dedented_vec(&[" a", "  b"]), &[" a", "b"]);
}

#[test]
fn removes_minimal_indentation_length() {
    assert_eq!(get_dedented_vec(&["", " a", "  b"]), &["a", " b"]);
    assert_eq!(get_dedented_vec(&["", "  a", " b"]), &[" a", "b"]);
    assert_eq!(
        get_dedented_vec(&["", "  a", " b", "c"]),
        &["  a", " b", "c"]
    );
}

#[test]
fn dedent_both_tab_and_space_as_single_character() {
    assert_eq!(
        get_dedented_vec(&["", "\ta", "          b"]),
        &["a", "         b"]
    );
    assert_eq!(
        get_dedented_vec(&["", "\t a", "          b"]),
        &["a", "        b"]
    );
    assert_eq!(
        get_dedented_vec(&["", " \t a", "          b"]),
        &["a", "       b"]
    );
}

#[test]
fn dedent_do_not_take_empty_lines_into_account() {
    assert_eq!(get_dedented_vec(&["a", "", " b"]), &["a", "", "b"]);
    assert_eq!(get_dedented_vec(&["a", " ", "  b"]), &["a", "", "b"]);
}

#[test]
fn removes_uniform_indentation_from_a_string() {
    let lines = vec![
        "",
        "    Hello,",
        "      World!",
        "",
        "    Yours,",
        "      GraphQL.",
    ];
    assert_eq!(
        get_dedented_vec(&lines),
        &["Hello,", "  World!", "", "Yours,", "  GraphQL.",]
    );
}

#[test]
fn removes_empty_leading_and_trailing_lines() {
    let lines = vec![
        "",
        "",
        "    Hello,",
        "      World!",
        "",
        "    Yours,",
        "      GraphQL.",
        "",
        "",
    ];
    assert_eq!(
        get_dedented_vec(&lines),
        &["Hello,", "  World!", "", "Yours,", "  GraphQL.",]
    );
}

#[test]
fn removes_blank_leading_and_trailing_lines() {
    let lines = vec![
        "  ",
        "        ",
        "    Hello,",
        "      World!",
        "",
        "    Yours,",
        "      GraphQL.",
        "        ",
        "  ",
    ];
    assert_eq!(
        get_dedented_vec(&lines),
        &["Hello,", "  World!", "", "Yours,", "  GraphQL.",]
    );
}

#[test]
fn retains_indentation_from_first_line() {
    let lines = vec![
        "    Hello,",
        "      World!",
        "",
        "    Yours,",
        "      GraphQL.",
    ];
    assert_eq!(
        get_dedented_vec(&lines),
        &["    Hello,", "  World!", "", "Yours,", "  GraphQL.",]
    );
}

#[test]
fn does_not_alter_trailing_spaces() {
    let lines = vec![
        "               ",
        "    Hello,     ",
        "      World!   ",
        "               ",
        "    Yours,     ",
        "      GraphQL. ",
        "               ",
    ];
    assert_eq!(
        get_dedented_vec(&lines),
        &[
            "Hello,     ",
            "  World!   ",
            "           ",
            "Yours,     ",
            "  GraphQL. ",
        ]
    );
}

#[test]
fn dedent_of_only_blank_lines_is_empty() {
    assert!(get_dedented_vec(&["  ", "", "\t"]).is_empty());
    assert!(get_dedented_vec(&[]).is_empty());
}

#[test]
fn dedent_keeps_size_hint_and_counts_lines() {
    let mut bsl = BlockStringLines::default();
    bsl.push(String::from(""));
    bsl.push(String::from("  x"));
    assert_eq!(bsl.len(), 2);
    dedent_block_lines_mut(&mut bsl);
    assert_eq!(bsl.len(), 1);
    assert_eq!(bsl.lines(), vec![String::from("x")]);
}
