use graphql_minify::minimizer::{is_punctuator, space_template_part, space_template_parts};

fn parts(items: &[Option<&str>]) -> Vec<Option<String>> {
    items.iter().map(|p| p.map(String::from)).collect()
}

#[test]
fn expression_inside_selection_is_not_glued() {
    // `id image{${IMAGE} url}`
    let res = space_template_parts(&parts(&[Some("id image{"), Some("url}")]), 1);
    assert_eq!(res, parts(&[Some("id image{"), Some(" url}")]));
}

#[test]
fn spaces_between_identifiers_and_expressions() {
    // `query ${A} fields ${B} rest`
    let res = space_template_parts(&parts(&[Some("query"), Some("fields"), Some("rest")]), 2);
    assert_eq!(res, parts(&[Some("query "), Some(" fields "), Some(" rest")]));
}

#[test]
fn punctuators_need_no_space() {
    let res = space_template_parts(&parts(&[Some("a("), Some(")b")]), 1);
    assert_eq!(res, parts(&[Some("a("), Some(")b")]));
    let res = space_template_parts(&parts(&[Some("{...")], ), 0);
    assert_eq!(res, parts(&[Some("{...")]));
}

#[test]
fn empty_parts_between_expressions() {
    // `${A}${B}`: the middle part separates the two expressions with one space
    let res = space_template_parts(&parts(&[Some(""), Some(""), Some("")]), 2);
    assert_eq!(res, parts(&[Some(""), Some(" "), Some("")]));
}

#[test]
fn parts_left_as_they_are_stay_so() {
    let res = space_template_parts(&parts(&[None, Some("x"), None]), 2);
    assert_eq!(res, parts(&[None, Some(" x "), None]));
}

#[test]
fn template_without_expressions_is_not_spaced() {
    let res = space_template_parts(&parts(&[Some("query{a}"), Some("b")]), 0);
    assert_eq!(res, parts(&[Some("query{a}"), None]));
}

#[test]
fn single_part_spacing() {
    assert_eq!(space_template_part("a", 1, 2, true, true), " a ");
    assert_eq!(space_template_part("", 2, 2, true, false), "");
    assert_eq!(space_template_part("", 0, 2, false, true), "");
    assert_eq!(space_template_part("!", 1, 2, true, true), "!");
    assert!(is_punctuator(b'@'));
    assert!(!is_punctuator(b'a'));
}

#[test]
fn spacing_again_after_trimming_changes_nothing() {
    let first = space_template_parts(
        &parts(&[Some("query{a"), Some("b"), Some(""), Some("c}")]),
        3,
    );
    assert_eq!(first, parts(&[Some("query{a "), Some(" b "), Some(" "), Some(" c}")]));
    let trimmed: Vec<Option<String>> = first
        .iter()
        .map(|p| p.as_ref().map(|s| s.trim_matches(' ').to_string()))
        .collect();
    let second = space_template_parts(&trimmed, 3);
    assert_eq!(second, first);
}
