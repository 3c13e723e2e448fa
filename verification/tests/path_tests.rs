use tinyserve::path::split_segments;

#[test]
fn splits_simple_path() {
    assert_eq!(split_segments("/hello"), vec![String::from("hello")]);
}

#[test]
fn drops_empty_segments() {
    assert_eq!(
        split_segments("//a/b/"),
        vec![String::from("a"), String::from("b")]
    );
    assert_eq!(
        split_segments("a//b"),
        vec![String::from("a"), String::from("b")]
    );
}

#[test]
fn empty_and_root_paths_have_no_segments() {
    assert_eq!(split_segments(""), Vec::<String>::new());
    assert_eq!(split_segments("/"), Vec::<String>::new());
    assert_eq!(split_segments("///"), Vec::<String>::new());
}

#[test]
fn no_slash_is_one_segment() {
    assert_eq!(split_segments("hello"), vec![String::from("hello")]);
}
