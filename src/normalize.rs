use vstd::prelude::*;

use crate::document::{lemma_trees_of_push, trees_of, Node, Tree};

verus! {

/// An ASCII letter or digit.
pub open spec fn is_alnum(c: char) -> bool {
    ('0' <= c && c <= '9') || ('a' <= c && c <= 'z') || ('A' <= c && c <= 'Z')
}

/// Two hyphens at `i + 1` with a letter or digit on each side.
pub open spec fn dash_at(s: Seq<char>, i: int) -> bool {
    0 <= i && i + 4 <= s.len() && is_alnum(s[i]) && s[i + 1] == '-' && s[i + 2] == '-'
        && is_alnum(s[i + 3])
}

/// The em dash, U+2014.
pub open spec fn em_dash_char() -> char {
    '\u{2014}'
}

/// Scanning from the left, each double hyphen between two letters or digits
/// becomes an em dash; the characters around it belong to that occurrence, so
/// the next one is looked for after them.
pub open spec fn em_dash(s: Seq<char>) -> Seq<char>
    decreases s.len(),
{
    if s.len() < 4 {
        s
    } else if dash_at(s, 0) {
        seq![s[0], em_dash_char(), s[3]] + em_dash(s.subrange(4, s.len() as int))
    } else {
        seq![s[0]] + em_dash(s.subrange(1, s.len() as int))
    }
}

/// Relies on regex::Regex::new and Regex::replace_all: the pattern
/// `([[:alnum:]])(--)([[:alnum:]])`, whose class is ASCII `[0-9A-Za-z]`, is
/// valid; `replace_all` replaces the leftmost-first, non-overlapping matches,
/// found left to right, and `${1}` / `${3}` give back the two letters or digits.
#[verifier::external_body]
fn regex_replace_all(pattern: &str, text: &str, replacement: &str) -> (r: String)
    requires
        pattern@ == "([[:alnum:]])(--)([[:alnum:]])"@,
        replacement@ == "${1}\u{2014}${3}"@,
    ensures
        r@ == em_dash(text@),
{
    regex::Regex::new(pattern).unwrap().replace_all(text, replacement).into_owned()
}

/// The text normalization: every double hyphen between two letters or
/// digits becomes an em dash. One left-to-right pass misses an occurrence whose
/// left neighbour closed the previous one (the second in `a--b--c`); a second
/// pass catches all of those, and after it none is left.
pub open spec fn normalize_text(s: Seq<char>) -> Seq<char> {
    em_dash(em_dash(s))
}

/// Replaces every double hyphen between two letters or digits by an em dash.
pub fn text_replace(text: String) -> (r: String)
    ensures
        r@ == normalize_text(text@),
        forall|i: int| !#[trigger] dash_at(r@, i),
{
    let once = regex_replace_all("([[:alnum:]])(--)([[:alnum:]])", text.as_str(), "${1}\u{2014}${3}");
    let r = regex_replace_all("([[:alnum:]])(--)([[:alnum:]])", once.as_str(), "${1}\u{2014}${3}");
    proof {
        lemma_pass_leaves_no_chain(text@);
        lemma_rewritten_has_no_match(once@);
    }
    r
}

/// The normalizer on one tree: text is rewritten, every other node keeps its
/// own fields and has its children normalized.
pub open spec fn normalize_tree(t: Tree) -> Tree
    decreases t,
{
    match t {
        Tree::Text { value } => Tree::Text { value: normalize_text(value) },
        Tree::Heading { depth, children } => Tree::Heading {
            depth,
            children: normalize_trees(children),
        },
        Tree::List { ordered, start, spread, children } => Tree::List {
            ordered,
            start,
            spread,
            children: normalize_trees(children),
        },
        Tree::ListItem { checked, spread, children } => Tree::ListItem {
            checked,
            spread,
            children: normalize_trees(children),
        },
        Tree::Other { tag, children } => Tree::Other { tag, children: normalize_trees(children) },
    }
}

pub open spec fn normalize_trees(s: Seq<Tree>) -> Seq<Tree>
    decreases s,
{
    if s.len() == 0 {
        s
    } else {
        normalize_trees(s.drop_last()).push(normalize_tree(s.last()))
    }
}

/// Rewrites the text of a node and of everything below it.
pub fn format_node(n: &Node) -> (r: Node)
    ensures
        r@ == normalize_tree(n@),
    decreases n,
{
    match n {
        Node::Text { value } => Node::Text { value: text_replace(value.clone()) },
        Node::Heading { depth, children } => Node::Heading {
            depth: *depth,
            children: format_document(children),
        },
        Node::List { ordered, start, spread, children } => Node::List {
            ordered: *ordered,
            start: *start,
            spread: *spread,
            children: format_document(children),
        },
        Node::ListItem { checked, spread, children } => Node::ListItem {
            checked: *checked,
            spread: *spread,
            children: format_document(children),
        },
        Node::Other { tag, children } => Node::Other {
            tag: *tag,
            children: format_document(children),
        },
    }
}

/// Rewrites the text throughout a sequence of nodes, such as the top-level
/// blocks of a document.
pub fn format_document(v: &Vec<Node>) -> (r: Vec<Node>)
    ensures
        trees_of(r@) == normalize_trees(trees_of(v@)),
    decreases v,
{
    let mut r: Vec<Node> = Vec::new();
    let mut i: usize = 0;
    while i < v.len()
        invariant
            i <= v.len(),
            trees_of(r@) == normalize_trees(trees_of(v@.subrange(0, i as int))),
        decreases v.len() - i,
    {
        let c = format_node(&v[i]);
        proof {
            let t = trees_of(v@.subrange(0, i + 1));
            lemma_trees_of_push(r@, c);
            assert(v@.subrange(0, i + 1) =~= v@.subrange(0, i as int).push(v@[i as int]));
            lemma_trees_of_push(v@.subrange(0, i as int), v@[i as int]);
            assert(t.drop_last() =~= trees_of(v@.subrange(0, i as int)));
        }
        r.push(c);
        i = i + 1;
    }
    assert(v@.subrange(0, i as int) =~= v@);
    r
}

/// No letter or digit stands between two double hyphens, as the `b` of
/// `a--b--c` does.
pub open spec fn no_shared_neighbour(s: Seq<char>) -> bool {
    forall|i: int| !(#[trigger] dash_at(s, i) && dash_at(s, i + 3))
}

proof fn lemma_em_dash_head(s: Seq<char>)
    ensures
        s.len() == 0 ==> em_dash(s).len() == 0,
        s.len() > 0 ==> em_dash(s).len() > 0 && em_dash(s)[0] == s[0],
        s.len() > 0 && !is_alnum(s[0]) ==> em_dash(s) == seq![s[0]] + em_dash(
            s.subrange(1, s.len() as int),
        ),
{
    if s.len() > 0 && s.len() < 4 {
        assert(seq![s[0]] + s.subrange(1, s.len() as int) =~= s);
    }
}

proof fn lemma_dash_at_shift(s: Seq<char>, k: int)
    requires
        0 <= k <= s.len(),
    ensures
        forall|i: int| 0 <= i ==> (#[trigger] dash_at(s.subrange(k, s.len() as int), i) == dash_at(s, i + k)),
{
}

proof fn lemma_no_match_fixed(t: Seq<char>)
    requires
        forall|i: int| !#[trigger] dash_at(t, i),
    ensures
        em_dash(t) == t,
    decreases t.len(),
{
    if t.len() >= 4 {
        let u = t.subrange(1, t.len() as int);
        lemma_dash_at_shift(t, 1);
        assert forall|i: int| !#[trigger] dash_at(u, i) by {
            if i >= 0 {
                assert(dash_at(u, i) == dash_at(t, i + 1));
            }
        }
        lemma_no_match_fixed(u);
        assert(seq![t[0]] + u =~= t);
    }
}

proof fn lemma_rewritten_has_no_match(s: Seq<char>)
    requires
        no_shared_neighbour(s),
    ensures
        forall|i: int| !#[trigger] dash_at(em_dash(s), i),
    decreases s.len(),
{
    if s.len() >= 4 {
        let out = em_dash(s);
        if dash_at(s, 0) {
            let rest = s.subrange(4, s.len() as int);
            lemma_dash_at_shift(s, 4);
            assert forall|i: int| !(#[trigger] dash_at(rest, i) && dash_at(rest, i + 3)) by {
                if i >= 0 {
                    assert(dash_at(rest, i) == dash_at(s, i + 4));
                    assert(dash_at(rest, i + 3) == dash_at(s, i + 7));
                }
            }
            lemma_rewritten_has_no_match(rest);
            let e = em_dash(rest);
            assert(out == seq![s[0], em_dash_char(), s[3]] + e);
            assert forall|i: int| !#[trigger] dash_at(out, i) by {
                if i >= 3 {
                    assert(dash_at(out, i) == dash_at(e, i - 3));
                } else if i == 2 && dash_at(out, 2) {
                    lemma_em_dash_head(rest);
                    let r5 = rest.subrange(1, rest.len() as int);
                    lemma_em_dash_head(r5);
                    let r6 = r5.subrange(1, r5.len() as int);
                    lemma_em_dash_head(r6);
                    assert(e[0] == s[4]);
                    assert(e == seq![s[4]] + em_dash(r5));
                    assert(em_dash(r5)[0] == s[5]);
                    assert(em_dash(r5) == seq![s[5]] + em_dash(r6));
                    assert(e[2] == em_dash(r6)[0]);
                    assert(dash_at(s, 3));
                    assert(dash_at(s, 0int) && dash_at(s, 0int + 3));
                }
            }
        } else {
            let rest = s.subrange(1, s.len() as int);
            lemma_dash_at_shift(s, 1);
            assert forall|i: int| !(#[trigger] dash_at(rest, i) && dash_at(rest, i + 3)) by {
                if i >= 0 {
                    assert(dash_at(rest, i) == dash_at(s, i + 1));
                    assert(dash_at(rest, i + 3) == dash_at(s, i + 4));
                }
            }
            lemma_rewritten_has_no_match(rest);
            let e = em_dash(rest);
            assert(out == seq![s[0]] + e);
            assert forall|i: int| !#[trigger] dash_at(out, i) by {
                if i >= 1 {
                    assert(dash_at(out, i) == dash_at(e, i - 1));
                } else if i == 0 && dash_at(out, 0) {
                    lemma_em_dash_head(rest);
                    let r2 = rest.subrange(1, rest.len() as int);
                    lemma_em_dash_head(r2);
                    let r3 = r2.subrange(1, r2.len() as int);
                    lemma_em_dash_head(r3);
                    assert(e == seq![s[1]] + em_dash(r2));
                    assert(em_dash(r2) == seq![s[2]] + em_dash(r3));
                    assert(dash_at(s, 0));
                }
            }
        }
    }
}

proof fn lemma_pass_leaves_no_chain(s: Seq<char>)
    ensures
        no_shared_neighbour(em_dash(s)),
    decreases s.len(),
{
    if s.len() >= 4 {
        let out = em_dash(s);
        if dash_at(s, 0) {
            let rest = s.subrange(4, s.len() as int);
            lemma_pass_leaves_no_chain(rest);
            let e = em_dash(rest);
            assert(out == seq![s[0], em_dash_char(), s[3]] + e);
            assert forall|i: int| !(#[trigger] dash_at(out, i) && dash_at(out, i + 3)) by {
                if i >= 3 {
                    assert(dash_at(out, i) == dash_at(e, i - 3));
                    assert(dash_at(out, i + 3) == dash_at(e, i));
                } else if i == 2 && dash_at(out, 2) && dash_at(out, 5) {
                    lemma_em_dash_head(rest);
                    let r5 = rest.subrange(1, rest.len() as int);
                    lemma_em_dash_head(r5);
                    let r6 = r5.subrange(1, r5.len() as int);
                    lemma_em_dash_head(r6);
                    assert(e == seq![s[4]] + em_dash(r5));
                    assert(em_dash(r5) == seq![s[5]] + em_dash(r6));
                    let f = em_dash(r6);
                    assert(e == seq![s[4], s[5]] + f);
                    assert(f[0] == r6[0]);
                    assert(f[1] == '-');
                    assert(!dash_at(r6, 0));
                    let r7 = r6.subrange(1, r6.len() as int);
                    assert(f == seq![r6[0]] + em_dash(r7));
                    lemma_em_dash_head(r7);
                    let r8 = r7.subrange(1, r7.len() as int);
                    assert(em_dash(r7) == seq![r7[0]] + em_dash(r8));
                    lemma_em_dash_head(r8);
                    let r9 = r8.subrange(1, r8.len() as int);
                    assert(em_dash(r8) == seq![r8[0]] + em_dash(r9));
                    lemma_em_dash_head(r9);
                    assert(dash_at(r6, 0));
                }
            }
        } else {
            let rest = s.subrange(1, s.len() as int);
            lemma_pass_leaves_no_chain(rest);
            let e = em_dash(rest);
            assert(out == seq![s[0]] + e);
            assert forall|i: int| !(#[trigger] dash_at(out, i) && dash_at(out, i + 3)) by {
                if i >= 1 {
                    assert(dash_at(out, i) == dash_at(e, i - 1));
                    assert(dash_at(out, i + 3) == dash_at(e, i + 2));
                } else if i == 0 && dash_at(out, 0) {
                    lemma_em_dash_head(rest);
                    let r2 = rest.subrange(1, rest.len() as int);
                    lemma_em_dash_head(r2);
                    let r3 = r2.subrange(1, r2.len() as int);
                    lemma_em_dash_head(r3);
                    assert(e == seq![s[1]] + em_dash(r2));
                    assert(em_dash(r2) == seq![s[2]] + em_dash(r3));
                    assert(dash_at(s, 0));
                }
            }
        }
    }
}

/// Normalized text holds no double hyphen between two letters or digits, so
/// normalizing it again changes nothing.
pub proof fn normalize_text_idempotent(s: Seq<char>)
    ensures
        forall|i: int| !#[trigger] dash_at(normalize_text(s), i),
        normalize_text(normalize_text(s)) == normalize_text(s),
{
    lemma_pass_leaves_no_chain(s);
    lemma_rewritten_has_no_match(em_dash(s));
    let t = normalize_text(s);
    lemma_no_match_fixed(t);
    lemma_no_match_fixed(t);
}

/// Normalizing a node twice gives what normalizing it once gives, so a
/// formatted document may be written back unconditionally.
pub proof fn normalize_tree_idempotent(t: Tree)
    ensures
        normalize_tree(normalize_tree(t)) == normalize_tree(t),
    decreases t,
{
    match t {
        Tree::Text { value } => normalize_text_idempotent(value),
        Tree::Heading { children, .. } => normalize_trees_idempotent(children),
        Tree::List { children, .. } => normalize_trees_idempotent(children),
        Tree::ListItem { children, .. } => normalize_trees_idempotent(children),
        Tree::Other { children, .. } => normalize_trees_idempotent(children),
    }
}

/// Normalizing a sequence of nodes, such as a document's top-level blocks,
/// twice gives what normalizing it once gives.
pub proof fn normalize_trees_idempotent(s: Seq<Tree>)
    ensures
        normalize_trees(normalize_trees(s)) == normalize_trees(s),
    decreases s,
{
    if s.len() > 0 {
        normalize_trees_idempotent(s.drop_last());
        normalize_tree_idempotent(s.last());
        let n = normalize_trees(s);
        assert(n.drop_last() =~= normalize_trees(s.drop_last()));
    }
}

} // verus!
