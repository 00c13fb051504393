use yamldiff::access::KeyPathFuncs;
use yamldiff::keypath::{ItemKey, KeyPath};
use yamldiff::node::{MapEntry, Node, node_eq};

fn entry(key: &str, value: Node) -> MapEntry {
    MapEntry { key: key.to_string(), value }
}

/// The document `this: { is: [ { a: { deep: { path: 123 } } } ] }`.
fn deep_doc() -> Node {
    Node::Hash(vec![entry(
        "this",
        Node::Hash(vec![entry(
            "is",
            Node::Array(vec![Node::Hash(vec![entry(
                "a",
                Node::Hash(vec![entry(
                    "deep",
                    Node::Hash(vec![entry("path", Node::Int(123))]),
                )]),
            )])]),
        )]),
    )])
}

/// The document `this: { is: [ { a: { deep: 123 } } ] }`.
fn shallow_doc() -> Node {
    Node::Hash(vec![entry(
        "this",
        Node::Hash(vec![entry(
            "is",
            Node::Array(vec![Node::Hash(vec![entry(
                "a",
                Node::Hash(vec![entry("deep", Node::Int(123))]),
            )])]),
        )]),
    )])
}

#[test]
fn test_parse_string_keys() {
    let kp = KeyPath::parse("a.b.c.d");
    let expected: &[ItemKey] = &[
        ItemKey::from("a"),
        ItemKey::from("b"),
        ItemKey::from("c"),
        ItemKey::from("d"),
    ];
    assert_eq!(KeyPath::from(expected), kp);
}

#[test]
fn test_parse_string_keys_quoted() {
    let kp = KeyPath::parse("a.b.[c.d]");
    let expected: &[ItemKey] = &[ItemKey::from("a"), ItemKey::from("b"), ItemKey::from("c.d")];
    assert_eq!(KeyPath::from(expected), kp);
}

#[test]
fn test_parse_string_and_index_keys() {
    let kp = KeyPath::parse("a.b.c[0]");
    let expected: &[ItemKey] = &[
        ItemKey::from("a"),
        ItemKey::from("b"),
        ItemKey::from("c"),
        ItemKey::from(0),
    ];
    assert_eq!(KeyPath::from(expected), kp);
}

#[test]
fn test_parse_string_and_2d_index_keys() {
    let kp = KeyPath::parse("a.b.c[0][1]");
    let expected: &[ItemKey] = &[
        ItemKey::from("a"),
        ItemKey::from("b"),
        ItemKey::from("c"),
        ItemKey::from(0),
        ItemKey::from(1),
    ];
    assert_eq!(KeyPath::from(expected), kp);
}

#[test]
fn test_parse_string_and_quoted_with_index_key() {
    let kp = KeyPath::parse("a.[b.c][1]");
    let expected: &[ItemKey] = &[ItemKey::from("a"), ItemKey::from("b.c"), ItemKey::from(1)];
    assert_eq!(KeyPath::from(expected), kp);
}

#[test]
fn test_parse_string_and_numeric_quoted_with_index_key() {
    let kp = KeyPath::parse("a.b.c[0]d[1]");
    let expected: &[ItemKey] = &[
        ItemKey::from("a"),
        ItemKey::from("b"),
        ItemKey::from("c0d"),
        ItemKey::from(1),
    ];
    assert_eq!(KeyPath::from(expected), kp);
}

#[test]
fn test_parse_long_string_and_numeric_quoted_with_index_key() {
    let kp = KeyPath::parse("apple.banana.coconut[0]date[1]");
    let expected: &[ItemKey] = &[
        ItemKey::from("apple"),
        ItemKey::from("banana"),
        ItemKey::from("coconut0date"),
        ItemKey::from(1),
    ];
    assert_eq!(KeyPath::from(expected), kp);
}

#[test]
fn test_set_value() {
    let mut y = deep_doc();
    let path = KeyPath::parse("this.is[0].a.deep.path");
    assert!(node_eq(y.get_at_path(&path).unwrap(), &Node::Int(123)));
    y.set_at_path(&path, Node::Int(456)).unwrap();
    assert!(node_eq(y.get_at_path(&path).unwrap(), &Node::Int(456)));
}

#[test]
fn test_set_new_value() {
    let mut y = Node::Hash(vec![]);
    let path = KeyPath::parse("this.is.a.deep.path");
    y.set_at_path(&path, Node::Int(456)).unwrap();
    assert!(node_eq(y.get_at_path(&path).unwrap(), &Node::Int(456)));
}

#[test]
fn test_set_new_bad_array_value() {
    let mut y = Node::Hash(vec![]);
    let result = y.set_at_path(&KeyPath::parse("this_is_array[0]"), Node::Int(456));
    assert!(result.is_err());
    if let Err(e) = result {
        assert_eq!(
            "invalid array index 0 at 'this_is_array' in YAML document",
            e.message()
        );
    }
}

#[test]
fn test_set_new_bad_path_array_value() {
    let mut y = Node::Hash(vec![]);
    let result = y.set_at_path(&KeyPath::parse("this.is.array[0].obj"), Node::Int(456));
    assert!(result.is_err());
    if let Err(e) = result {
        assert_eq!(
            "invalid array index 0 at 'this.is.array' in YAML document",
            e.message()
        );
    }
}

#[test]
fn test_set_bad_path_value() {
    let mut y = deep_doc();
    assert!(node_eq(
        y.get_at_path(&KeyPath::parse("this.is[0].a.deep.path")).unwrap(),
        &Node::Int(123)
    ));
    let result = y.set_at_path(&KeyPath::parse("this.is[0].a.deep.path.bad"), Node::Int(456));
    assert!(result.is_err());
    if let Err(e) = result {
        assert_eq!(
            "value found at 'this.is[0].a.deep.path' in YAML document is not the correct type",
            e.message()
        );
    }
}

#[test]
fn test_set_bad_mid_path_value() {
    let mut y = shallow_doc();
    assert!(node_eq(
        y.get_at_path(&KeyPath::parse("this.is[0].a.deep")).unwrap(),
        &Node::Int(123)
    ));
    let result = y.set_at_path(&KeyPath::parse("this.is[0].a.deep.really.bad"), Node::Int(456));
    assert!(result.is_err());
    if let Err(e) = result {
        assert_eq!(
            "value found at 'this.is[0].a.deep' in YAML document is not the correct type",
            e.message()
        );
    }
}

#[test]
fn test_get_path_value() {
    let y = deep_doc();
    let result = y.get_at_path(&KeyPath::parse("this.is[0].a.deep.path")).unwrap();
    assert!(node_eq(&Node::Int(123), result));
}

#[test]
fn test_get_bad_path_value() {
    let y = deep_doc();
    let result = y.get_at_path(&KeyPath::parse("this.is[0].a.steep.path"));
    assert!(result.is_err());
    if let Err(e) = result {
        assert_eq!(
            "key 'this.is[0].a.steep' not found in YAML document, or is wrong type",
            e.message()
        );
    }
}

#[test]
fn test_serialize_mixed_path() {
    let kp = KeyPath(vec![
        ItemKey::Key("a".to_string()),
        ItemKey::Key("b.c".to_string()),
        ItemKey::Index(2),
    ]);
    assert_eq!("a.[b.c][2]", kp.to_text());
}

#[test]
fn test_serialize_then_parse_round_trip() {
    let kp = KeyPath(vec![
        ItemKey::Key("spec".to_string()),
        ItemKey::Index(0),
        ItemKey::Index(11),
        ItemKey::Key("app.kubernetes.io/name".to_string()),
        ItemKey::Key("x7".to_string()),
    ]);
    let text = kp.to_text();
    assert_eq!("spec[0][11].[app.kubernetes.io/name].x7", text);
    assert_eq!(kp, KeyPath::parse(&text));
}

#[test]
fn test_serialize_leading_index() {
    let kp = KeyPath(vec![ItemKey::Index(3), ItemKey::Key("a".to_string())]);
    let text = kp.to_text();
    assert_eq!("[3].a", text);
    assert_eq!(kp, KeyPath::parse(&text));
}

#[test]
fn test_truncated_path() {
    let kp = KeyPath::parse("a.b.c");
    assert_eq!("a.b", kp.truncated(2).to_text());
    assert_eq!("a.b.c", kp.truncated(9).to_text());
}

#[test]
fn test_push_path() {
    let kp = KeyPath::new().push(ItemKey::from("a")).push(ItemKey::from(4));
    assert_eq!("a[4]", kp.to_text());
}

#[test]
fn test_parse_non_trailing_bracket_absorbed() {
    let kp = KeyPath::parse("a[5]b");
    let expected: &[ItemKey] = &[ItemKey::from("a5b")];
    assert_eq!(KeyPath::from(expected), kp);
}

#[test]
fn test_parse_signed_index_text() {
    // the bracket text is read like Rust's unsigned parser: a leading
    // `+` is allowed
    let kp = KeyPath::parse("a[+1]");
    let expected: &[ItemKey] = &[ItemKey::from("a"), ItemKey::from(1)];
    assert_eq!(KeyPath::from(expected), kp);
}

#[test]
fn test_parse_leading_zero_index_text() {
    let kp = KeyPath::parse("a[01]");
    let expected: &[ItemKey] = &[ItemKey::from("a"), ItemKey::from(1)];
    assert_eq!(KeyPath::from(expected), kp);
}

#[test]
fn test_parse_overflowing_index_stays_text() {
    // a number no machine word holds is not an index; its digits are
    // absorbed into the key text
    let kp = KeyPath::parse("a[99999999999999999999]");
    let expected: &[ItemKey] = &[ItemKey::from("a99999999999999999999")];
    assert_eq!(KeyPath::from(expected), kp);
}

#[test]
fn test_parse_dotted_bracket_key_not_index() {
    let kp = KeyPath::parse("a.[1.5]");
    let expected: &[ItemKey] = &[ItemKey::from("a"), ItemKey::from("1.5")];
    assert_eq!(KeyPath::from(expected), kp);
}
