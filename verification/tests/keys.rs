use ioc::{split_first_key, split_last_key};

#[test]
fn first_key_is_cut_before_the_first_dot() {
    assert_eq!(split_first_key("a.b.c"), ("a", ".b.c"));
    assert_eq!(split_first_key("abc"), ("abc", ""));
    assert_eq!(split_first_key(".b"), ("", ".b"));
    assert_eq!(split_first_key("a."), ("a", "."));
    assert_eq!(split_first_key("é.ü"), ("é", ".ü"));
}

#[test]
fn last_key_is_cut_before_the_last_dot() {
    assert_eq!(split_last_key("a.b.c"), ("a.b", ".c"));
    assert_eq!(split_last_key("abc"), ("", "abc"));
    assert_eq!(split_last_key(".b"), ("", ".b"));
    assert_eq!(split_last_key("a."), ("a", "."));
    assert_eq!(split_last_key("é.ü"), ("é", ".ü"));
}
