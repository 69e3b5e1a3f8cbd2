use webgraph::node::Node;

#[test]
fn node_lowercase_name() {
    let n = Node::from("TEST".to_string());
    assert_eq!(n.as_str(), "test");
}

#[test]
fn host_node_cleanup() {
    let n = Node::from("https://www.example.com?test").into_host();
    assert_eq!(n.as_str(), "example.com");
}

#[test]
fn remove_protocol() {
    let n = Node::from("https://www.example.com/?test");

    assert_eq!(n.as_str(), "example.com/?test=");
}

#[test]
fn test_node_normalized() {
    let n = Node::from("http://www.example.com/abc");
    assert_eq!(n.as_str(), "example.com/abc");

    let n = Node::from("http://www.example.com/abc#123");
    assert_eq!(n.as_str(), "example.com/abc");
}

#[test]
fn normalizing_twice_changes_nothing() {
    for name in [
        "http://www.example.com/abc#123",
        "HTTPS://WWW.Example.COM/Path?Query&b=1#frag",
        "www.www.example.com",
        "http://https://www.example.com",
        "example.com/?a&&b=&c",
        "",
        "#only",
        "ÄÖ.example/ß?x",
    ] {
        let once = Node::from(name);
        let twice = Node::from(once.as_str());
        assert_eq!(twice.as_str(), once.as_str());
    }
}

#[test]
fn only_the_host_is_lowercased() {
    assert_eq!(Node::from("Example.COM/Some/Path?Key=Value").as_str(), "example.com/Some/Path?Key=Value");
}

#[test]
fn query_parameters_get_a_value() {
    assert_eq!(Node::from("example.com/?a&b=1&c").as_str(), "example.com/?a=&b=1&c=");
    assert_eq!(Node::from("example.com/?").as_str(), "example.com/?");
}

#[test]
fn the_fingerprint_is_the_fnv1a_hash_of_the_name() {
    assert_eq!(Node::from("").id().as_u64(), 0xcbf29ce484222325);
    assert_eq!(Node::from("a").id().as_u64(), 0xaf63dc4c8601ec8c);
    assert_eq!(Node::from("foobar").id().as_u64(), 0x85944171f73967e8);
    assert_eq!(Node::from("HTTP://Foobar").id(), Node::from("foobar").id());
}

#[test]
fn canonical_names_have_no_scheme_no_www_and_no_fragment() {
    for (name, expected) in [
        ("http://example.com", "example.com"),
        ("https://example.com/a", "example.com/a"),
        ("HTTPS://WWW.EXAMPLE.COM/A#B", "example.com/A"),
        ("www.example.com", "example.com"),
        ("http://www.www.example.com", "example.com"),
        ("example.com#fragment", "example.com"),
        ("example.com/a#b#c", "example.com/a"),
        ("ftp://example.com", "ftp://example.com"),
        ("wwwexample.com", "wwwexample.com"),
        ("", ""),
    ] {
        assert_eq!(Node::from(name).as_str(), expected);
    }
}

#[test]
fn the_host_is_what_stands_before_path_and_query() {
    assert_eq!(Node::from("example.com/a/b?c").into_host().as_str(), "example.com");
    assert_eq!(Node::from("example.com").into_host().as_str(), "example.com");
    assert_eq!(Node::from("sub.example.co.uk/x").into_host().as_str(), "sub.example.co.uk");
    assert_eq!(Node::from("/path").into_host().as_str(), "");
    assert_eq!(Node::from("A").clone().as_str(), "a");
}

#[test]
fn nodes_are_equal_where_their_names_are() {
    assert!(Node::from("http://www.Example.com/a#x") == Node::from("example.com/a"));
    assert!(Node::from("example.com/a") != Node::from("example.com/A"));
    let mut set = std::collections::HashSet::new();
    set.insert(Node::from("https://example.com"));
    assert!(set.contains(&Node::from("EXAMPLE.com")));
}

#[test]
fn the_host_of_a_node_is_a_canonical_name() {
    for name in [
        "https://www.Example.com/Path?x",
        "blog.example.co.uk/a",
        "WWW.http://x/y",
        "example.com?q=1#frag",
        "",
    ] {
        let node = Node::from(name);
        assert_eq!(Node::from(node.as_str()), node);
        let host = node.into_host();
        assert_eq!(Node::from(host.as_str()), host);
    }
    assert_eq!(Node::from("blog.example.co.uk/a").into_host().as_str(), "blog.example.co.uk");
}
