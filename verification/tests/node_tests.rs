use jsonc::node::Node;

#[test]
fn string_node_should_be_value() {
    let node = Node::StringValue("test".to_string());
    assert_eq!(r#""test""#.to_string(), node.to_json_string());
}

#[test]
fn number_node_should_be_value() {
    let node = Node::Number("999.99".to_string());
    assert_eq!(r#"999.99"#.to_string(), node.to_json_string());
}

#[test]
fn bool_node_should_be_value() {
    let node = Node::Boolean(false);
    assert_eq!(r#"false"#.to_string(), node.to_json_string());
    let node = Node::Boolean(true);
    assert_eq!(r#"true"#.to_string(), node.to_json_string());
}

#[test]
fn null_node_should_be_value() {
    let node = Node::Null;
    assert_eq!(r#"null"#.to_string(), node.to_json_string());
}

#[test]
fn object_node_to_string() {
    let node = Node::Object(vec![(
        "key".to_string(),
        Node::StringValue("value".to_string()),
    )]);
    assert_eq!(r#"{"key":"value"}"#.to_string(), node.to_json_string());
    let node = Node::Object(vec![
        ("a".to_string(), Node::Null),
        ("b".to_string(), Node::Number("999.99".to_string())),
        ("c".to_string(), Node::Boolean(true)),
    ]);
    assert_eq!(
        r#"{"a":null,"b":999.99,"c":true}"#.to_string(),
        node.to_json_string()
    );
    let node = Node::Object(vec![(
        "a".to_string(),
        Node::Array(vec![
            Node::Number("111".to_string()),
            Node::Number("222".to_string()),
        ]),
    )]);
    assert_eq!(r#"{"a":[111,222]}"#.to_string(), node.to_json_string());
}

#[test]
fn array_node_to_string() {
    let node = Node::Array(vec![Node::StringValue("first".to_string())]);
    assert_eq!(r#"["first"]"#.to_string(), node.to_json_string());
    let node = Node::Array(vec![
        Node::StringValue("first".to_string()),
        Node::Number("2".to_string()),
        Node::Boolean(false),
        Node::Null,
    ]);
    assert_eq!(
        r#"["first",2,false,null]"#.to_string(),
        node.to_json_string()
    );
}
