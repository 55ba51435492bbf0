use graphql_minify::description::{trim_dedented, Description};

#[test]
fn block_string_description_is_cleaned() {
    let d = Description::new_cleaned("\"\"\"\n    Hello,\n      World!\n  \"\"\"");
    assert_eq!(d.as_str(), "Hello,\n  World!");
}

#[test]
fn string_description_is_cleaned() {
    let d = Description::new_cleaned("\" some text \"");
    assert_eq!(d.as_str(), "some text");
}

#[test]
fn plain_description_is_cleaned() {
    let d = Description::new_cleaned("\n  plain\n");
    assert_eq!(d.as_str(), "plain");
}

#[test]
fn equal_descriptions_compare_equal() {
    let a = Description::new_cleaned("\"\"\"  same  \"\"\"");
    let b = Description::new_cleaned("\"same\"");
    let c = Description::new_cleaned("\"other\"");
    assert!(a == b);
    assert!(a != c);
}

#[test]
fn trimming_keeps_inner_text() {
    assert_eq!(trim_dedented(" \r\n a b \n "), "a b");
    assert_eq!(trim_dedented(" \n "), "");
    assert_eq!(trim_dedented("\tx\t"), "\tx\t");
}
