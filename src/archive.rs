use vstd::prelude::*;

use crate::document::{
    duplicate, lemma_trees_of_add, lemma_trees_of_index, lemma_trees_of_len,
    lemma_trees_of_push, tree_of, trees_of, Node, Tree,
};

verus! {

/// The text of the heading that opens the archive section.
pub open spec fn archive_title() -> Seq<char> {
    "Archived"@
}

/// A level-two heading whose first inline child is the text "Archived".
pub open spec fn is_archive_heading(t: Tree) -> bool {
    match t {
        Tree::Heading { depth, children } => depth == 2 && children.len() > 0
            && children[0] == (Tree::Text { value: archive_title() }),
        _ => false,
    }
}

/// The heading inserted when a document has no archive section yet.
pub open spec fn new_archive_heading() -> Tree {
    Tree::Heading { depth: 2, children: seq![Tree::Text { value: archive_title() }] }
}

/// Completion: an explicitly unchecked item never qualifies; any other item
/// qualifies when all its children do; a list qualifies when all its items do;
/// every other node is no obstacle.
pub open spec fn should_archive(t: Tree) -> bool
    decreases t,
{
    match t {
        Tree::ListItem { checked, children, .. } => checked != Some(false) && all_archivable(
            children,
        ),
        Tree::List { children, .. } => all_archivable(children),
        _ => true,
    }
}

pub open spec fn all_archivable(s: Seq<Tree>) -> bool
    decreases s,
{
    if s.len() == 0 {
        true
    } else {
        all_archivable(s.drop_last()) && should_archive(s.last())
    }
}

/// A child of a list that leaves it for the archive section.
pub open spec fn moves(t: Tree) -> bool {
    t is ListItem && should_archive(t)
}

/// The children of a list that stay, in their order.
pub open spec fn kept_items(s: Seq<Tree>) -> Seq<Tree>
    decreases s.len(),
{
    if s.len() == 0 {
        s
    } else if moves(s.last()) {
        kept_items(s.drop_last())
    } else {
        kept_items(s.drop_last()).push(s.last())
    }
}

/// The children of a list that move to the archive section, in their order.
pub open spec fn archived_items(s: Seq<Tree>) -> Seq<Tree>
    decreases s.len(),
{
    if s.len() == 0 {
        s
    } else if moves(s.last()) {
        archived_items(s.drop_last()).push(s.last())
    } else {
        archived_items(s.drop_last())
    }
}

/// The index of the first archive heading among the top-level blocks.
pub open spec fn first_heading(d: Seq<Tree>) -> Option<int>
    decreases d.len(),
{
    if d.len() == 0 {
        None
    } else {
        match first_heading(d.drop_last()) {
            Some(h) => Some(h),
            None => if is_archive_heading(d.last()) {
                Some(d.len() - 1)
            } else {
                None
            },
        }
    }
}

/// One past the index of the last top-level list.
pub open spec fn lists_end(d: Seq<Tree>) -> Option<int>
    decreases d.len(),
{
    if d.len() == 0 {
        None
    } else if d.last() is List {
        Some(d.len() as int)
    } else {
        lists_end(d.drop_last())
    }
}

/// Where the scope of archiving ends: at the archive heading, or, without one,
/// just after the last list (where the heading will go).
pub open spec fn scope_end(d: Seq<Tree>) -> int {
    match first_heading(d) {
        Some(h) => h,
        None => match lists_end(d) {
            Some(e) => e,
            None => d.len() as int,
        },
    }
}

/// The blocks of the scope once the moving items are gone: a list that loses
/// all its items disappears, one that loses some keeps the rest.
pub open spec fn process_scope(d: Seq<Tree>) -> Seq<Tree>
    decreases d.len(),
{
    if d.len() == 0 {
        d
    } else {
        let r = process_scope(d.drop_last());
        match d.last() {
            Tree::List { ordered, start, spread, children } => if archived_items(children).len()
                == 0 {
                r.push(d.last())
            } else if kept_items(children).len() == 0 {
                r
            } else {
                r.push(Tree::List { ordered, start, spread, children: kept_items(children) })
            },
            _ => r.push(d.last()),
        }
    }
}

/// One list per list of the scope that loses items, holding those items and
/// keeping the source list's marker and spacing, in the order of the scope.
pub open spec fn archived_lists(d: Seq<Tree>) -> Seq<Tree>
    decreases d.len(),
{
    if d.len() == 0 {
        d
    } else {
        let r = archived_lists(d.drop_last());
        match d.last() {
            Tree::List { ordered, start, spread, children } => if archived_items(children).len()
                == 0 {
                r
            } else {
                r.push(Tree::List { ordered, start, spread, children: archived_items(children) })
            },
            _ => r,
        }
    }
}

/// The archive transform on the top-level blocks of a document: `None` when
/// nothing moves, else the scope without the moved items, the archive heading,
/// the lists of moved items, and what followed the heading (or the insertion
/// point).
pub open spec fn archive_model(d: Seq<Tree>) -> Option<Seq<Tree>> {
    let p = scope_end(d);
    let scope = d.subrange(0, p);
    if archived_lists(scope).len() == 0 {
        None
    } else {
        let head = match first_heading(d) {
            Some(h) => d[h],
            None => new_archive_heading(),
        };
        let tail_start = match first_heading(d) {
            Some(h) => h + 1,
            None => p,
        };
        Some(
            process_scope(scope) + seq![head] + archived_lists(scope) + d.subrange(
                tail_start,
                d.len() as int,
            ),
        )
    }
}

pub open spec fn model_of_result(r: Option<Vec<Node>>) -> Option<Seq<Tree>> {
    match r {
        Some(v) => Some(trees_of(v@)),
        None => None,
    }
}

proof fn lemma_first_heading_range(d: Seq<Tree>)
    ensures
        match first_heading(d) {
            Some(h) => 0 <= h < d.len() && is_archive_heading(d[h]),
            None => true,
        },
    decreases d.len(),
{
    if d.len() > 0 {
        lemma_first_heading_range(d.drop_last());
    }
}

pub(crate) proof fn lemma_lists_end_range(d: Seq<Tree>)
    ensures
        match lists_end(d) {
            Some(e) => 0 < e <= d.len(),
            None => true,
        },
    decreases d.len(),
{
    if d.len() > 0 {
        lemma_lists_end_range(d.drop_last());
    }
}

fn is_archive_heading_node(n: &Node) -> (r: bool)
    ensures
        r == is_archive_heading(n@),
{
    match n {
        Node::Heading { depth, children } => {
            if *depth != 2 || children.len() == 0 {
                proof {
                    lemma_trees_of_len(children@);
                }
                return false;
            }
            proof {
                lemma_trees_of_index(children@, 0);
            }
            match &children[0] {
                Node::Text { value } => {
                    let title = "Archived".to_owned();
                    *value == title
                },
                _ => false,
            }
        },
        _ => false,
    }
}

fn node_should_archive(n: &Node) -> (r: bool)
    ensures
        r == should_archive(n@),
    decreases n,
{
    match n {
        Node::ListItem { checked, children, .. } => match checked {
            Some(false) => false,
            _ => nodes_all_archivable(children),
        },
        Node::List { children, .. } => nodes_all_archivable(children),
        _ => true,
    }
}

fn nodes_all_archivable(v: &Vec<Node>) -> (r: bool)
    ensures
        r == all_archivable(trees_of(v@)),
    decreases v,
{
    let mut i: usize = 0;
    while i < v.len()
        invariant
            i <= v.len(),
            all_archivable(trees_of(v@.subrange(0, i as int))),
        decreases v.len() - i,
    {
        let ok = node_should_archive(&v[i]);
        proof {
            assert(v@.subrange(0, i + 1) =~= v@.subrange(0, i as int).push(v@[i as int]));
            lemma_trees_of_push(v@.subrange(0, i as int), v@[i as int]);
            assert(trees_of(v@.subrange(0, i + 1)).drop_last() =~= trees_of(
                v@.subrange(0, i as int),
            ));
        }
        if !ok {
            proof {
                lemma_trees_of_prefix(v@, i + 1);
                lemma_trees_of_len(v@);
                if all_archivable(trees_of(v@)) {
                    lemma_all_archivable_prefix(trees_of(v@), i + 1);
                }
            }
            return false;
        }
        i = i + 1;
    }
    assert(v@.subrange(0, i as int) =~= v@);
    true
}

proof fn lemma_trees_of_prefix(s: Seq<Node>, k: int)
    requires
        0 <= k <= s.len(),
    ensures
        trees_of(s.subrange(0, k)) == trees_of(s).subrange(0, k),
    decreases s.len() - k,
{
    lemma_trees_of_len(s);
    if k == s.len() {
        assert(s.subrange(0, k) =~= s);
        assert(trees_of(s).subrange(0, k) =~= trees_of(s));
    } else {
        lemma_trees_of_prefix(s, k + 1);
        assert(s.subrange(0, k + 1).drop_last() =~= s.subrange(0, k));
        lemma_trees_of_len(s.subrange(0, k + 1));
        assert(trees_of(s.subrange(0, k + 1)).drop_last() =~= trees_of(s).subrange(0, k));
    }
}

proof fn lemma_all_archivable_prefix(s: Seq<Tree>, k: int)
    requires
        0 <= k <= s.len(),
        all_archivable(s),
    ensures
        all_archivable(s.subrange(0, k)),
    decreases s.len() - k,
{
    if k == s.len() {
        assert(s.subrange(0, k) =~= s);
    } else {
        lemma_all_archivable_prefix(s, k + 1);
        assert(s.subrange(0, k + 1).drop_last() =~= s.subrange(0, k));
    }
}

pub open spec fn index_of(o: Option<usize>) -> Option<int> {
    match o {
        Some(x) => Some(x as int),
        None => None,
    }
}

/// Splits the children of a list into those that stay and those that move.
fn partition_items(v: &Vec<Node>) -> (r: (Vec<Node>, Vec<Node>))
    ensures
        trees_of(r.0@) == kept_items(trees_of(v@)),
        trees_of(r.1@) == archived_items(trees_of(v@)),
{
    let mut kept: Vec<Node> = Vec::new();
    let mut moved: Vec<Node> = Vec::new();
    let mut i: usize = 0;
    while i < v.len()
        invariant
            i <= v.len(),
            trees_of(kept@) == kept_items(trees_of(v@.subrange(0, i as int))),
            trees_of(moved@) == archived_items(trees_of(v@.subrange(0, i as int))),
        decreases v.len() - i,
    {
        let is_item = matches!(v[i], Node::ListItem { .. });
        let leaves = is_item && node_should_archive(&v[i]);
        let c = duplicate(&v[i]);
        proof {
            let t = trees_of(v@.subrange(0, i + 1));
            assert(v@.subrange(0, i + 1) =~= v@.subrange(0, i as int).push(v@[i as int]));
            lemma_trees_of_push(v@.subrange(0, i as int), v@[i as int]);
            assert(t.drop_last() =~= trees_of(v@.subrange(0, i as int)));
            assert(t.last() == tree_of(v@[i as int]));
            assert(leaves == moves(tree_of(v@[i as int])));
            lemma_trees_of_push(kept@, c);
            lemma_trees_of_push(moved@, c);
        }
        if leaves {
            moved.push(c);
        } else {
            kept.push(c);
        }
        i = i + 1;
    }
    assert(v@.subrange(0, i as int) =~= v@);
    (kept, moved)
}

fn new_heading_node() -> (r: Node)
    ensures
        r@ == new_archive_heading(),
{
    let value = "Archived".to_owned();
    let text = Node::Text { value };
    let ghost g = text;
    let mut children: Vec<Node> = Vec::new();
    children.push(text);
    proof {
        assert(tree_of(g) == Tree::Text { value: archive_title() });
        lemma_trees_of_push(Seq::<Node>::empty(), g);
        assert(children@ =~= Seq::<Node>::empty().push(g));
        assert(trees_of(Seq::<Node>::empty()) =~= Seq::<Tree>::empty());
        assert(trees_of(children@) =~= seq![Tree::Text { value: archive_title() }]);
    }
    Node::Heading { depth: 2, children }
}

/// Moves every fully completed checklist item that stands before the archive
/// heading into the archive section, creating the heading after the last list
/// if there is none. Returns `None` when nothing moves.
pub fn archive(doc: &Vec<Node>) -> (r: Option<Vec<Node>>)
    ensures
        model_of_result(r) == archive_model(trees_of(doc@)),
{
    let ghost d = trees_of(doc@);
    proof {
        lemma_trees_of_len(doc@);
    }
    let mut heading: Option<usize> = None;
    let mut last_list: Option<usize> = None;
    let mut i: usize = 0;
    while i < doc.len()
        invariant
            i <= doc.len(),
            d == trees_of(doc@),
            d.len() == doc.len(),
            index_of(heading) == first_heading(d.subrange(0, i as int)),
            index_of(last_list) == lists_end(d.subrange(0, i as int)),
        decreases doc.len() - i,
    {
        proof {
            lemma_trees_of_index(doc@, i as int);
            assert(d.subrange(0, i + 1).drop_last() =~= d.subrange(0, i as int));
        }
        if heading.is_none() && is_archive_heading_node(&doc[i]) {
            heading = Some(i);
        }
        if matches!(doc[i], Node::List { .. }) {
            last_list = Some(i + 1);
        }
        i = i + 1;
    }
    proof {
        assert(d.subrange(0, i as int) =~= d);
        lemma_first_heading_range(d);
        lemma_lists_end_range(d);
    }
    let p: usize = match heading {
        Some(h) => h,
        None => match last_list {
            Some(e) => e,
            None => doc.len(),
        },
    };
    assert(p == scope_end(d));
    let ghost scope = d.subrange(0, p as int);
    let mut kept: Vec<Node> = Vec::new();
    let mut moved: Vec<Node> = Vec::new();
    let mut i: usize = 0;
    while i < p
        invariant
            i <= p <= doc.len(),
            d == trees_of(doc@),
            d.len() == doc.len(),
            scope == d.subrange(0, p as int),
            trees_of(kept@) == process_scope(d.subrange(0, i as int)),
            trees_of(moved@) == archived_lists(d.subrange(0, i as int)),
        decreases p - i,
    {
        proof {
            lemma_trees_of_index(doc@, i as int);
            assert(d.subrange(0, i + 1).drop_last() =~= d.subrange(0, i as int));
            assert(d.subrange(0, i + 1).last() == tree_of(doc@[i as int]));
        }
        let node = &doc[i];
        match node {
            Node::List { ordered, start, spread, children } => {
                let (k, a) = partition_items(children);
                proof {
                    lemma_trees_of_len(k@);
                    lemma_trees_of_len(a@);
                }
                if a.len() == 0 {
                    let c = duplicate(node);
                    proof {
                        lemma_trees_of_push(kept@, c);
                    }
                    kept.push(c);
                } else {
                    if k.len() > 0 {
                        let rest = Node::List {
                            ordered: *ordered,
                            start: *start,
                            spread: *spread,
                            children: k,
                        };
                        proof {
                            lemma_trees_of_push(kept@, rest);
                        }
                        kept.push(rest);
                    }
                    let done = Node::List {
                        ordered: *ordered,
                        start: *start,
                        spread: *spread,
                        children: a,
                    };
                    proof {
                        lemma_trees_of_push(moved@, done);
                    }
                    moved.push(done);
                }
            },
            _ => {
                let c = duplicate(node);
                proof {
                    lemma_trees_of_push(kept@, c);
                }
                kept.push(c);
            },
        }
        i = i + 1;
    }
    proof {
        lemma_trees_of_len(moved@);
    }
    if moved.len() == 0 {
        return None;
    }
    let head = match heading {
        Some(h) => duplicate(&doc[h]),
        None => new_heading_node(),
    };
    let tail_start: usize = match heading {
        Some(h) => h + 1,
        None => p,
    };
    let mut result = kept;
    proof {
        lemma_trees_of_push(result@, head);
        if heading.is_some() {
            lemma_trees_of_index(doc@, tail_start - 1);
        }
    }
    result.push(head);
    proof {
        lemma_trees_of_add(result@, moved@);
    }
    result.append(&mut moved);
    let ghost base = trees_of(result@);
    let mut j: usize = tail_start;
    while j < doc.len()
        invariant
            tail_start <= j <= doc.len(),
            d == trees_of(doc@),
            d.len() == doc.len(),
            trees_of(result@) == base + d.subrange(tail_start as int, j as int),
        decreases doc.len() - j,
    {
        let c = duplicate(&doc[j]);
        proof {
            lemma_trees_of_index(doc@, j as int);
            lemma_trees_of_push(result@, c);
            assert(base + d.subrange(tail_start as int, j + 1) =~= (base + d.subrange(
                tail_start as int,
                j as int,
            )).push(d[j as int]));
        }
        result.push(c);
        j = j + 1;
    }
    Some(result)
}

} // verus!
