use graphql_minify::vec_str::VecStr;

#[test]
fn vec_str_builds_strings() {
    let mut v = VecStr::new_in();
    assert_eq!(v.as_str(), "");
    v.push_str("héllo");
    v.push(b' ');
    v.push_str("wörld");
    assert_eq!(v.as_str(), "héllo wörld");
    assert_eq!(v.len(), "héllo wörld".len());
    assert_eq!(v.as_bytes(), "héllo wörld".as_bytes());
}

#[test]
fn vec_str_drains_ranges() {
    let mut v = VecStr::from_str_in("héllo wörld");
    let removed = v.drain(0, 7);
    assert_eq!(removed, "héllo ".as_bytes().to_vec());
    assert_eq!(v.as_str(), "wörld");
    v.clear();
    assert_eq!(v.as_str(), "");
}

#[test]
fn vec_str_with_capacity_is_empty() {
    let v = VecStr::with_capacity_in(16);
    assert_eq!(v.len(), 0);
    assert_eq!(v.as_str(), "");
}
