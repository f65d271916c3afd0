use vstd::prelude::*;

verus! {

/// One node of a parsed markdown document.
///
/// Only the kinds that the transforms look at are spelled out; every other
/// kind of node is an `Other`, identified by a tag that the caller chose and
/// carrying its children, so that text inside it can still be rewritten.
#[derive(Debug, PartialEq, Eq)]
pub enum Node {
    Heading { depth: u8, children: Vec<Node> },
    List { ordered: bool, start: Option<u32>, spread: bool, children: Vec<Node> },
    ListItem { checked: Option<bool>, spread: bool, children: Vec<Node> },
    Text { value: String },
    Other { tag: usize, children: Vec<Node> },
}

/// The mathematical value of a `Node`: the same tree, with sequences in place
/// of vectors and strings.
pub enum Tree {
    Heading { depth: u8, children: Seq<Tree> },
    List { ordered: bool, start: Option<u32>, spread: bool, children: Seq<Tree> },
    ListItem { checked: Option<bool>, spread: bool, children: Seq<Tree> },
    Text { value: Seq<char> },
    Other { tag: usize, children: Seq<Tree> },
}

pub open spec fn tree_of(n: Node) -> Tree
    decreases n,
{
    match n {
        Node::Heading { depth, children } => Tree::Heading {
            depth,
            children: trees_of(children@),
        },
        Node::List { ordered, start, spread, children } => Tree::List {
            ordered,
            start,
            spread,
            children: trees_of(children@),
        },
        Node::ListItem { checked, spread, children } => Tree::ListItem {
            checked,
            spread,
            children: trees_of(children@),
        },
        Node::Text { value } => Tree::Text { value: value@ },
        Node::Other { tag, children } => Tree::Other { tag, children: trees_of(children@) },
    }
}

pub open spec fn trees_of(s: Seq<Node>) -> Seq<Tree>
    decreases s,
{
    if s.len() == 0 {
        Seq::empty()
    } else {
        trees_of(s.drop_last()).push(tree_of(s.last()))
    }
}

impl View for Node {
    type V = Tree;

    open spec fn view(&self) -> Tree {
        tree_of(*self)
    }
}

pub proof fn lemma_trees_of_len(s: Seq<Node>)
    ensures
        trees_of(s).len() == s.len(),
    decreases s.len(),
{
    if s.len() > 0 {
        lemma_trees_of_len(s.drop_last());
    }
}

pub proof fn lemma_trees_of_index(s: Seq<Node>, i: int)
    requires
        0 <= i < s.len(),
    ensures
        trees_of(s).len() == s.len(),
        trees_of(s)[i] == tree_of(s[i]),
    decreases s.len(),
{
    lemma_trees_of_len(s);
    if i < s.len() - 1 {
        lemma_trees_of_index(s.drop_last(), i);
    }
}

pub proof fn lemma_trees_of_push(s: Seq<Node>, n: Node)
    ensures
        trees_of(s.push(n)) == trees_of(s).push(tree_of(n)),
{
    assert(s.push(n).drop_last() =~= s);
}

pub proof fn lemma_trees_of_add(a: Seq<Node>, b: Seq<Node>)
    ensures
        trees_of(a + b) == trees_of(a) + trees_of(b),
    decreases b.len(),
{
    if b.len() == 0 {
        assert(a + b =~= a);
        assert(trees_of(a) + trees_of(b) =~= trees_of(a));
    } else {
        lemma_trees_of_add(a, b.drop_last());
        assert((a + b).drop_last() =~= a + b.drop_last());
        assert((a + b).last() == b.last());
        assert(trees_of(a) + trees_of(b) =~= (trees_of(a) + trees_of(b.drop_last())).push(
            tree_of(b.last()),
        ));
    }
}

/// Builds an independent node with the same value.
pub fn duplicate(n: &Node) -> (r: Node)
    ensures
        r@ == n@,
    decreases n,
{
    match n {
        Node::Heading { depth, children } => Node::Heading {
            depth: *depth,
            children: duplicate_all(children),
        },
        Node::List { ordered, start, spread, children } => Node::List {
            ordered: *ordered,
            start: *start,
            spread: *spread,
            children: duplicate_all(children),
        },
        Node::ListItem { checked, spread, children } => Node::ListItem {
            checked: *checked,
            spread: *spread,
            children: duplicate_all(children),
        },
        Node::Text { value } => Node::Text { value: value.clone() },
        Node::Other { tag, children } => Node::Other { tag: *tag, children: duplicate_all(children) },
    }
}

/// Builds an independent vector of nodes with the same values.
pub fn duplicate_all(v: &Vec<Node>) -> (r: Vec<Node>)
    ensures
        trees_of(r@) == trees_of(v@),
    decreases v,
{
    let mut r: Vec<Node> = Vec::new();
    let mut i: usize = 0;
    while i < v.len()
        invariant
            i <= v.len(),
            trees_of(r@) == trees_of(v@.subrange(0, i as int)),
        decreases v.len() - i,
    {
        let c = duplicate(&v[i]);
        proof {
            lemma_trees_of_push(r@, c);
            assert(v@.subrange(0, i + 1) =~= v@.subrange(0, i as int).push(v@[i as int]));
            lemma_trees_of_push(v@.subrange(0, i as int), v@[i as int]);
        }
        r.push(c);
        i = i + 1;
    }
    assert(v@.subrange(0, i as int) =~= v@);
    r
}

} // verus!
