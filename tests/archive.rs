use vault_tidy::archive::archive;
use vault_tidy::document::{duplicate, Node};

fn text(s: &str) -> Node {
    Node::Text { value: s.to_string() }
}

fn para(s: &str) -> Node {
    Node::Other { tag: 0, children: vec![text(s)] }
}

fn item(checked: Option<bool>, label: &str, sub: Vec<Node>) -> Node {
    let mut children = vec![para(label)];
    if !sub.is_empty() {
        children.push(list(sub));
    }
    Node::ListItem { checked, spread: false, children }
}

fn done(label: &str) -> Node {
    item(Some(true), label, vec![])
}

fn open_item(label: &str) -> Node {
    item(Some(false), label, vec![])
}

fn list(items: Vec<Node>) -> Node {
    Node::List { ordered: false, start: None, spread: false, children: items }
}

fn heading(depth: u8, s: &str) -> Node {
    Node::Heading { depth, children: vec![text(s)] }
}

fn archived_heading() -> Node {
    heading(2, "Archived")
}

#[test]
fn untouched() {
    let doc = vec![list(vec![open_item("item 1")])];
    assert_eq!(archive(&doc), None);
}

#[test]
fn archive_single_item() {
    let doc = vec![para("#todo"), list(vec![done("item 1")])];
    let expected = vec![para("#todo"), archived_heading(), list(vec![done("item 1")])];
    assert_eq!(archive(&doc), Some(expected));
}

#[test]
fn archive_multiple_items() {
    let doc = vec![list(vec![done("item 1"), done("item 2"), open_item("item 3")])];
    let expected = vec![
        list(vec![open_item("item 3")]),
        archived_heading(),
        list(vec![done("item 1"), done("item 2")]),
    ];
    assert_eq!(archive(&doc), Some(expected));
}

#[test]
fn archive_multiple_items_with_sub_items() {
    let doc = vec![list(vec![
        item(Some(true), "item 1", vec![done("item 1.1"), done("item 1.2")]),
        item(Some(true), "item 2", vec![open_item("item 2.1")]),
        open_item("item 3"),
    ])];
    let expected = vec![
        list(vec![
            item(Some(true), "item 2", vec![open_item("item 2.1")]),
            open_item("item 3"),
        ]),
        archived_heading(),
        list(vec![item(Some(true), "item 1", vec![done("item 1.1"), done("item 1.2")])]),
    ];
    assert_eq!(archive(&doc), Some(expected));
}

#[test]
fn archive_again_is_unchanged() {
    let doc = vec![
        para("#todo"),
        list(vec![
            item(Some(true), "a", vec![done("a.1")]),
            open_item("b"),
            done("c"),
        ]),
        para("notes"),
    ];
    let once = archive(&doc).expect("something is archived");
    assert_eq!(archive(&once), None);
}

#[test]
fn unchecked_item_is_never_moved() {
    let vetoed = item(Some(false), "parent", vec![done("child 1"), done("child 2")]);
    let doc = vec![list(vec![duplicate(&vetoed), done("other")])];
    let expected = vec![list(vec![vetoed]), archived_heading(), list(vec![done("other")])];
    assert_eq!(archive(&doc), Some(expected));
}

#[test]
fn only_unchecked_items_is_unchanged() {
    let doc = vec![list(vec![item(Some(false), "parent", vec![done("child")])])];
    assert_eq!(archive(&doc), None);
}

#[test]
fn plain_item_counts_as_checked() {
    let doc = vec![list(vec![item(None, "plain", vec![]), open_item("open")])];
    let expected = vec![
        list(vec![open_item("open")]),
        archived_heading(),
        list(vec![item(None, "plain", vec![])]),
    ];
    assert_eq!(archive(&doc), Some(expected));
}

#[test]
fn plain_item_with_open_child_stays() {
    let doc = vec![list(vec![item(None, "plain", vec![open_item("child")])])];
    assert_eq!(archive(&doc), None);
}

#[test]
fn heading_goes_after_last_list() {
    let doc = vec![heading(1, "Todo"), list(vec![done("x")]), para("trailing")];
    let expected = vec![
        heading(1, "Todo"),
        archived_heading(),
        list(vec![done("x")]),
        para("trailing"),
    ];
    assert_eq!(archive(&doc), Some(expected));
}

#[test]
fn document_without_lists_is_unchanged() {
    let doc = vec![heading(1, "Notes"), para("just text")];
    assert_eq!(archive(&doc), None);
}

#[test]
fn existing_archive_section_is_reused() {
    let doc = vec![
        list(vec![done("new"), open_item("open")]),
        archived_heading(),
        list(vec![done("old")]),
    ];
    let expected = vec![
        list(vec![open_item("open")]),
        archived_heading(),
        list(vec![done("new")]),
        list(vec![done("old")]),
    ];
    assert_eq!(archive(&doc), Some(expected));
}

#[test]
fn lists_after_archive_heading_are_untouched() {
    let doc = vec![
        list(vec![open_item("open")]),
        archived_heading(),
        list(vec![done("old")]),
    ];
    assert_eq!(archive(&doc), None);
}

#[test]
fn other_headings_are_not_the_archive() {
    let doc = vec![
        heading(3, "Archived"),
        heading(2, "Archive"),
        list(vec![done("x")]),
    ];
    let expected = vec![
        heading(3, "Archived"),
        heading(2, "Archive"),
        archived_heading(),
        list(vec![done("x")]),
    ];
    assert_eq!(archive(&doc), Some(expected));
}

#[test]
fn archived_lists_keep_scan_order() {
    let ordered = Node::List {
        ordered: true,
        start: Some(3),
        spread: true,
        children: vec![done("first list")],
    };
    let doc = vec![
        duplicate(&ordered),
        para("between"),
        list(vec![done("second list a"), open_item("stays"), done("second list b")]),
    ];
    let expected = vec![
        para("between"),
        list(vec![open_item("stays")]),
        archived_heading(),
        ordered,
        list(vec![done("second list a"), done("second list b")]),
    ];
    assert_eq!(archive(&doc), Some(expected));
}
