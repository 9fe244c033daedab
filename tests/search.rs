use tui_kit::search::find_contains;

#[test]
fn find_contains_test() {
    let v = vec!["a", "abc", "c"];
    let contains = find_contains(v.as_slice(), "a");
    assert_eq!(contains, vec![true, true, false]);
}

#[test]
fn find_contains_edge_cases() {
    let v = vec!["", "abc", "xabcx", "ab", "aabc", "héllo"];
    assert_eq!(find_contains(v.as_slice(), "abc"), vec![false, true, true, false, true, false]);
    assert_eq!(find_contains(v.as_slice(), ""), vec![true; 6]);
    assert_eq!(find_contains(v.as_slice(), "él"), vec![false, false, false, false, false, true]);
    assert_eq!(find_contains(&[], "a"), Vec::<bool>::new());
}
