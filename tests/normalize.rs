use vault_tidy::document::Node;
use vault_tidy::normalize::{format_document, format_node, text_replace};

#[test]
fn em_dash_between_letters() {
    assert_eq!(text_replace("pre--post".to_string()), "pre\u{2014}post");
}

#[test]
fn em_dash_between_digits() {
    assert_eq!(text_replace("5--10".to_string()), "5\u{2014}10");
}

#[test]
fn hyphens_without_neighbours_stay() {
    assert_eq!(text_replace("-- not adjacent".to_string()), "-- not adjacent");
    assert_eq!(text_replace("a -- b".to_string()), "a -- b");
    assert_eq!(text_replace("a---b".to_string()), "a---b");
    assert_eq!(text_replace("".to_string()), "");
}

#[test]
fn em_dash_twice_same_as_once() {
    for s in ["pre--post", "5--10", "a -- b", "x--y and z--w", "caf\u{e9}--bar", "a--b--c"] {
        let once = text_replace(s.to_string());
        assert_eq!(text_replace(once.clone()), once);
    }
}

#[test]
fn em_dash_shared_neighbour() {
    assert_eq!(text_replace("a--b--c".to_string()), "a\u{2014}b\u{2014}c");
    assert_eq!(text_replace("a--b--c--d".to_string()), "a\u{2014}b\u{2014}c\u{2014}d");
    let once = text_replace("1--2--3--4--5".to_string());
    assert_eq!(once, "1\u{2014}2\u{2014}3\u{2014}4\u{2014}5");
    assert_eq!(text_replace(once.clone()), once);
    assert_eq!(text_replace("x--y and z--w".to_string()), "x\u{2014}y and z\u{2014}w");
}

#[test]
fn format_reaches_nested_text() {
    let doc = vec![
        Node::Heading { depth: 1, children: vec![Node::Text { value: "A--B".to_string() }] },
        Node::List {
            ordered: true,
            start: Some(2),
            spread: false,
            children: vec![Node::ListItem {
                checked: Some(false),
                spread: false,
                children: vec![Node::Other {
                    tag: 7,
                    children: vec![Node::Text { value: "one--two".to_string() }],
                }],
            }],
        },
    ];
    let expected = vec![
        Node::Heading { depth: 1, children: vec![Node::Text { value: "A\u{2014}B".to_string() }] },
        Node::List {
            ordered: true,
            start: Some(2),
            spread: false,
            children: vec![Node::ListItem {
                checked: Some(false),
                spread: false,
                children: vec![Node::Other {
                    tag: 7,
                    children: vec![Node::Text { value: "one\u{2014}two".to_string() }],
                }],
            }],
        },
    ];
    assert_eq!(format_document(&doc), expected);
}

#[test]
fn format_leaves_plain_text_alone() {
    let n = Node::Text { value: "nothing to do".to_string() };
    assert_eq!(format_node(&n), Node::Text { value: "nothing to do".to_string() });
}

#[test]
fn format_twice_same_as_once() {
    let doc = vec![Node::Other {
        tag: 0,
        children: vec![Node::Text { value: "a--b--c and x -- y".to_string() }],
    }];
    let once = format_document(&doc);
    let expected = vec![Node::Other {
        tag: 0,
        children: vec![Node::Text { value: "a\u{2014}b\u{2014}c and x -- y".to_string() }],
    }];
    assert_eq!(once, expected);
    assert_eq!(format_document(&once), once);
}
