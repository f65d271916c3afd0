use markdown::mdast;
use markdown::ParseOptions;
use vault_tidy::archive::archive;
use vault_tidy::document::Node;
use vault_tidy::normalize::format_document;

fn to_library(node: mdast::Node, others: &mut Vec<mdast::Node>) -> Node {
    match node {
        mdast::Node::Heading(h) => Node::Heading {
            depth: h.depth,
            children: h.children.into_iter().map(|n| to_library(n, others)).collect(),
        },
        mdast::Node::List(l) => Node::List {
            ordered: l.ordered,
            start: l.start,
            spread: l.spread,
            children: l.children.into_iter().map(|n| to_library(n, others)).collect(),
        },
        mdast::Node::ListItem(i) => Node::ListItem {
            checked: i.checked,
            spread: i.spread,
            children: i.children.into_iter().map(|n| to_library(n, others)).collect(),
        },
        mdast::Node::Text(t) => Node::Text { value: t.value },
        mut node => {
            let children = node.children_mut().map(std::mem::take).unwrap_or_default();
            let children = children.into_iter().map(|n| to_library(n, others)).collect();
            others.push(node);
            Node::Other { tag: others.len() - 1, children }
        }
    }
}

fn from_library(node: Node, others: &[mdast::Node]) -> mdast::Node {
    let all = |c: Vec<Node>| c.into_iter().map(|n| from_library(n, others)).collect();
    match node {
        Node::Heading { depth, children } => {
            mdast::Node::Heading(mdast::Heading { depth, children: all(children), position: None })
        }
        Node::List { ordered, start, spread, children } => mdast::Node::List(mdast::List {
            ordered,
            start,
            spread,
            children: all(children),
            position: None,
        }),
        Node::ListItem { checked, spread, children } => {
            let mut children: Vec<mdast::Node> = all(children);
            let marker = match checked {
                Some(true) => Some("[x] "),
                Some(false) => Some("[ ] "),
                None => None,
            };
            if let (Some(m), Some(mdast::Node::Paragraph(p))) = (marker, children.first_mut()) {
                let html = mdast::Html { value: m.to_string(), position: None };
                p.children.insert(0, mdast::Node::Html(html));
            }
            mdast::Node::ListItem(mdast::ListItem { checked, spread, children, position: None })
        }
        Node::Text { value } => mdast::Node::Text(mdast::Text { value, position: None }),
        Node::Other { tag, children } => {
            let mut node = others[tag].clone();
            if let Some(slot) = node.children_mut() {
                *slot = all(children);
            }
            node
        }
    }
}

fn parse(text: &str) -> (Vec<Node>, Vec<mdast::Node>) {
    let mut others = Vec::new();
    let body = match markdown::to_mdast(text, &ParseOptions::gfm()).unwrap() {
        mdast::Node::Root(root) => {
            root.children.into_iter().map(|n| to_library(n, &mut others)).collect()
        }
        _ => panic!("the parser returns a root"),
    };
    (body, others)
}

fn render(body: Vec<Node>, others: &[mdast::Node]) -> String {
    let root = mdast::Node::Root(mdast::Root {
        children: body.into_iter().map(|n| from_library(n, others)).collect(),
        position: None,
    });
    let options = mdast_util_to_markdown::Options {
        bullet: '-',
        bullet_other: '*',
        ..mdast_util_to_markdown::Options::default()
    };
    mdast_util_to_markdown::to_markdown_with_options(&root, &options).unwrap()
}

fn archive_text(text: &str) -> Option<String> {
    let (body, others) = parse(text);
    archive(&body).map(|b| render(b, &others))
}

#[test]
fn archive_text_end_to_end() {
    assert_eq!(
        archive_text("- [x] item 1\n- [x] item 2\n- [ ] item 3\n"),
        Some("- [ ] item 3\n\n## Archived\n\n- [x] item 1\n- [x] item 2\n".to_string())
    );
}

#[test]
fn archive_text_unchanged() {
    assert_eq!(archive_text("- [ ] item 1\n"), None);
}

#[test]
fn archive_text_twice() {
    let once = archive_text("- [x] a\n    - [x] a.1\n- [ ] b\n").unwrap();
    assert_eq!(archive_text(&once), None);
}

#[test]
fn format_text_end_to_end() {
    let (body, others) = parse("A pre--post note, 5--10 days -- maybe.\n");
    assert_eq!(
        render(format_document(&body), &others),
        "A pre\u{2014}post note, 5\u{2014}10 days -- maybe.\n"
    );
}
