use navgraph::reflect::{Component, ReflectPathError, is_path_to_array_element, path_to_components};

fn field(s: &str) -> Component {
    Component::Field(s.as_bytes().to_vec())
}

fn index(s: &str) -> Component {
    Component::Index(s.as_bytes().to_vec())
}

#[test]
fn path_to_components_fields_and_indices() {
    assert_eq!(path_to_components(b"bar.stuff"), vec![field("bar"), field("stuff")]);
    assert_eq!(
        path_to_components(b"collection[0].payload"),
        vec![field("collection"), index("0"), field("payload")]
    );
    assert_eq!(
        path_to_components(b"hash_map[Foobar].payload"),
        vec![field("hash_map"), index("Foobar"), field("payload")]
    );
    assert_eq!(path_to_components(b"baz"), vec![field("baz")]);
    assert_eq!(path_to_components(b""), Vec::<Component>::new());
    assert_eq!(path_to_components(b".bar"), vec![field("bar")]);
}

#[test]
fn path_to_components_stops_at_unclosed_bracket() {
    // The field before the bracket is still produced; the unclosed index
    // discards the rest.
    assert_eq!(path_to_components(b"a[12"), vec![field("a")]);
}

#[test]
fn component_next_splits_one_step() {
    let (c, rest) = Component::next(b"foo.bar[3]").unwrap();
    assert_eq!(c, field("foo"));
    assert_eq!(rest, b"bar[3]".to_vec());

    let (c, rest) = Component::next(&rest).unwrap();
    assert_eq!(c, field("bar"));
    assert_eq!(rest, b"[3]".to_vec());

    let (c, rest) = Component::next(&rest).unwrap();
    assert_eq!(c, index("3"));
    assert_eq!(rest, b"".to_vec());

    let err = Component::next(b"[oops").unwrap_err();
    assert_eq!(err, ReflectPathError::UnclosedBrackets { s: b"[oops".to_vec() });
}

#[test]
fn array_element_paths() {
    assert!(is_path_to_array_element(b"collection[0]"));
    assert!(!is_path_to_array_element(b"collection[0].payload"));
    assert!(!is_path_to_array_element(b""));
}
