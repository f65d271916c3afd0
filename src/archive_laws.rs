use vstd::prelude::*;

use crate::archive::{
    all_archivable, archive_model, archived_items, archived_lists, first_heading,
    is_archive_heading, kept_items, lemma_lists_end_range, moves, new_archive_heading,
    process_scope, scope_end,
};
use crate::document::Tree;

verus! {

/// The items of all the top-level lists of `d`, list after list, each list's
/// items in their order.
pub open spec fn items_of(d: Seq<Tree>) -> Seq<Tree>
    decreases d.len(),
{
    if d.len() == 0 {
        Seq::empty()
    } else {
        match d.last() {
            Tree::List { children, .. } => items_of(d.drop_last()) + children,
            _ => items_of(d.drop_last()),
        }
    }
}

proof fn lemma_moved_all_move(s: Seq<Tree>)
    ensures
        forall|k: int| 0 <= k < archived_items(s).len() ==> moves(#[trigger] archived_items(s)[k]),
        forall|k: int| 0 <= k < kept_items(s).len() ==> !moves(#[trigger] kept_items(s)[k]),
    decreases s.len(),
{
    if s.len() > 0 {
        lemma_moved_all_move(s.drop_last());
        let a = archived_items(s.drop_last());
        let k = kept_items(s.drop_last());
        assert forall|i: int| 0 <= i < archived_items(s).len() implies moves(
            #[trigger] archived_items(s)[i],
        ) by {
            if i < a.len() {
                assert(archived_items(s)[i] == a[i]);
            }
        }
        assert forall|i: int| 0 <= i < kept_items(s).len() implies !moves(
            #[trigger] kept_items(s)[i],
        ) by {
            if i < k.len() {
                assert(kept_items(s)[i] == k[i]);
            }
        }
    }
}

proof fn lemma_items_sorted(s: Seq<Tree>, j: int)
    requires
        0 <= j < s.len(),
    ensures
        moves(s[j]) ==> archived_items(s).contains(s[j]),
        !moves(s[j]) ==> kept_items(s).contains(s[j]),
    decreases s.len(),
{
    if j < s.len() - 1 {
        lemma_items_sorted(s.drop_last(), j);
        let a = archived_items(s.drop_last());
        let k = kept_items(s.drop_last());
        if moves(s[j]) {
            let w = choose|w: int| 0 <= w < a.len() && a[w] == s[j];
            if moves(s.last()) {
                assert(archived_items(s)[w] == s[j]);
            }
        } else {
            let w = choose|w: int| 0 <= w < k.len() && k[w] == s[j];
            if !moves(s.last()) {
                assert(kept_items(s)[w] == s[j]);
            }
        }
    } else {
        if moves(s[j]) {
            assert(archived_items(s).last() == s[j]);
        } else {
            assert(kept_items(s).last() == s[j]);
        }
    }
}

proof fn lemma_archived_items_add(a: Seq<Tree>, b: Seq<Tree>)
    ensures
        archived_items(a + b) == archived_items(a) + archived_items(b),
    decreases b.len(),
{
    if b.len() == 0 {
        assert(a + b =~= a);
        assert(archived_items(a) + archived_items(b) =~= archived_items(a));
    } else {
        lemma_archived_items_add(a, b.drop_last());
        assert((a + b).drop_last() =~= a + b.drop_last());
        assert((a + b).last() == b.last());
        if moves(b.last()) {
            assert(archived_items(a) + archived_items(b) =~= (archived_items(a) + archived_items(
                b.drop_last(),
            )).push(b.last()));
        }
    }
}

proof fn lemma_archived_of_kept(s: Seq<Tree>)
    ensures
        archived_items(kept_items(s)).len() == 0,
    decreases s.len(),
{
    if s.len() > 0 {
        lemma_archived_of_kept(s.drop_last());
        let k = kept_items(s.drop_last());
        if !moves(s.last()) {
            assert(k.push(s.last()).drop_last() =~= k);
        }
    }
}

proof fn lemma_nothing_moves(s: Seq<Tree>)
    requires
        forall|j: int| 0 <= j < s.len() ==> !moves(#[trigger] s[j]),
    ensures
        archived_items(s).len() == 0,
    decreases s.len(),
{
    if s.len() > 0 {
        lemma_nothing_moves(s.drop_last());
    }
}

proof fn lemma_processed_has_nothing_to_move(s: Seq<Tree>)
    ensures
        archived_lists(process_scope(s)).len() == 0,
    decreases s.len(),
{
    if s.len() > 0 {
        lemma_processed_has_nothing_to_move(s.drop_last());
        let r = process_scope(s.drop_last());
        match s.last() {
            Tree::List { ordered, start, spread, children } => {
                lemma_archived_of_kept(children);
                if archived_items(children).len() == 0 {
                    assert(r.push(s.last()).drop_last() =~= r);
                } else if kept_items(children).len() != 0 {
                    let e = Tree::List {
                        ordered,
                        start,
                        spread,
                        children: kept_items(children),
                    };
                    assert(r.push(e).drop_last() =~= r);
                }
            },
            _ => {
                assert(r.push(s.last()).drop_last() =~= r);
            },
        }
    }
}

proof fn lemma_processed_has_no_heading(s: Seq<Tree>)
    requires
        forall|i: int| 0 <= i < s.len() ==> !is_archive_heading(#[trigger] s[i]),
    ensures
        forall|i: int|
            0 <= i < process_scope(s).len() ==> !is_archive_heading(#[trigger] process_scope(s)[i]),
    decreases s.len(),
{
    if s.len() > 0 {
        let r = process_scope(s.drop_last());
        assert forall|i: int| 0 <= i < s.len() - 1 implies !is_archive_heading(
            #[trigger] s.drop_last()[i],
        ) by {
            assert(s.drop_last()[i] == s[i]);
        }
        lemma_processed_has_no_heading(s.drop_last());
        assert(!is_archive_heading(s[s.len() - 1]));
        assert forall|i: int| 0 <= i < process_scope(s).len() implies !is_archive_heading(
            #[trigger] process_scope(s)[i],
        ) by {
            if i < r.len() {
                assert(process_scope(s)[i] == r[i]);
            }
        }
    }
}

proof fn lemma_first_heading_facts(d: Seq<Tree>)
    ensures
        match first_heading(d) {
            Some(h) => 0 <= h < d.len() && is_archive_heading(d[h]) && forall|i: int|
                0 <= i < h ==> !is_archive_heading(#[trigger] d[i]),
            None => forall|i: int| 0 <= i < d.len() ==> !is_archive_heading(#[trigger] d[i]),
        },
    decreases d.len(),
{
    if d.len() > 0 {
        let e = d.drop_last();
        lemma_first_heading_facts(e);
        match first_heading(e) {
            Some(h) => {
                assert(e[h] == d[h]);
                assert forall|i: int| 0 <= i < h implies !is_archive_heading(#[trigger] d[i]) by {
                    assert(e[i] == d[i]);
                }
            },
            None => {
                assert forall|i: int| 0 <= i < e.len() implies !is_archive_heading(
                    #[trigger] d[i],
                ) by {
                    assert(e[i] == d[i]);
                }
            },
        }
    }
}

proof fn lemma_first_heading_is(d: Seq<Tree>, k: int)
    requires
        0 <= k < d.len(),
        is_archive_heading(d[k]),
        forall|i: int| 0 <= i < k ==> !is_archive_heading(#[trigger] d[i]),
    ensures
        first_heading(d) == Some(k),
    decreases d.len(),
{
    if k < d.len() - 1 {
        lemma_first_heading_is(d.drop_last(), k);
    } else {
        lemma_first_heading_facts(d.drop_last());
        if first_heading(d.drop_last()) is Some {
            let h = first_heading(d.drop_last())->0;
            assert(d.drop_last()[h] == d[h]);
        }
    }
}

proof fn lemma_scope_end_range(d: Seq<Tree>)
    ensures
        0 <= scope_end(d) <= d.len(),
{
    lemma_first_heading_facts(d);
    lemma_lists_end_range(d);
}

/// Archiving a document a second time moves nothing: the first run leaves no
/// completed item before the archive heading, and the heading it made or
/// found is found again rather than made twice.
pub proof fn archive_is_idempotent(d: Seq<Tree>)
    requires
        archive_model(d) is Some,
    ensures
        archive_model(archive_model(d)->0) is None,
{
    let p = scope_end(d);
    lemma_scope_end_range(d);
    let scope = d.subrange(0, p);
    let pre = process_scope(scope);
    let r = archive_model(d)->0;
    lemma_first_heading_facts(d);
    assert forall|i: int| 0 <= i < scope.len() implies !is_archive_heading(#[trigger] scope[i]) by {
        assert(scope[i] == d[i]);
    }
    lemma_processed_has_no_heading(scope);
    let head = match first_heading(d) {
        Some(h) => d[h],
        None => new_archive_heading(),
    };
    assert(r[pre.len() as int] == head);
    assert forall|i: int| 0 <= i < pre.len() implies !is_archive_heading(#[trigger] r[i]) by {
        assert(r[i] == pre[i]);
    }
    lemma_first_heading_is(r, pre.len() as int);
    assert(r.subrange(0, pre.len() as int) =~= pre);
    lemma_processed_has_nothing_to_move(scope);
}

/// An item marked unchecked never leaves its list, whatever its children are:
/// it is among the items kept and no archived item is marked unchecked.
pub proof fn unchecked_items_stay(s: Seq<Tree>, j: int)
    requires
        0 <= j < s.len(),
        s[j] matches Tree::ListItem { checked: Some(false), .. },
    ensures
        kept_items(s).contains(s[j]),
        forall|k: int|
            0 <= k < archived_items(s).len() ==> !(#[trigger] archived_items(s)[k] matches Tree::ListItem {
                checked: Some(false),
                ..
            }),
{
    lemma_items_sorted(s, j);
    lemma_moved_all_move(s);
}

/// A checked item whose children all qualify (nested checked sub-items
/// included) moves as one unit: the very same subtree is among the archived
/// items and not among those kept.
pub proof fn completed_group_moves_whole(s: Seq<Tree>, j: int)
    requires
        0 <= j < s.len(),
        s[j] matches Tree::ListItem { checked: Some(true), children, .. } && all_archivable(children),
    ensures
        archived_items(s).contains(s[j]),
        !kept_items(s).contains(s[j]),
{
    lemma_items_sorted(s, j);
    lemma_moved_all_move(s);
}

proof fn lemma_archived_lists_order(d: Seq<Tree>)
    ensures
        items_of(archived_lists(d)) == archived_items(items_of(d)),
    decreases d.len(),
{
    if d.len() > 0 {
        lemma_archived_lists_order(d.drop_last());
        let a = archived_lists(d.drop_last());
        match d.last() {
            Tree::List { ordered, start, spread, children } => {
                lemma_archived_items_add(items_of(d.drop_last()), children);
                if archived_items(children).len() != 0 {
                    let e = Tree::List {
                        ordered,
                        start,
                        spread,
                        children: archived_items(children),
                    };
                    assert(a.push(e).drop_last() =~= a);
                } else {
                    assert(archived_items(items_of(d.drop_last())) + archived_items(children)
                        =~= archived_items(items_of(d.drop_last())));
                }
            },
            _ => {},
        }
    }
}

/// The archive section, right after its heading, holds the moved items in
/// the order of the lists they came from, and within a list in their order.
pub proof fn archive_keeps_order(d: Seq<Tree>)
    requires
        archive_model(d) is Some,
    ensures
        ({
            let scope = d.subrange(0, scope_end(d));
            let r = archive_model(d)->0;
            let k = process_scope(scope).len() as int;
            &&& is_archive_heading(r[k])
            &&& items_of(r.subrange(k + 1, k + 1 + archived_lists(scope).len()))
                == archived_items(items_of(scope))
        }),
{
    let p = scope_end(d);
    lemma_scope_end_range(d);
    let scope = d.subrange(0, p);
    let pre = process_scope(scope);
    let a = archived_lists(scope);
    let r = archive_model(d)->0;
    lemma_first_heading_facts(d);
    let k = pre.len() as int;
    assert(r.subrange(k + 1, k + 1 + a.len()) =~= a);
    lemma_archived_lists_order(scope);
}

proof fn lemma_quiet_scope(d: Seq<Tree>)
    requires
        forall|i: int, j: int|
            0 <= i < d.len() && (d[i] is List) && 0 <= j < d[i]->List_children.len() ==> !moves(
                #[trigger] d[i]->List_children[j],
            ),
    ensures
        archived_lists(d).len() == 0,
    decreases d.len(),
{
    if d.len() > 0 {
        assert forall|i: int, j: int|
            0 <= i < d.len() - 1 && (d.drop_last()[i] is List) && 0 <= j
                < d.drop_last()[i]->List_children.len() implies !moves(
            #[trigger] d.drop_last()[i]->List_children[j],
        ) by {
            assert(d.drop_last()[i] == d[i]);
        }
        lemma_quiet_scope(d.drop_last());
        if d.last() is List {
            let c = d.last()->List_children;
            assert forall|j: int| 0 <= j < c.len() implies !moves(#[trigger] c[j]) by {
                assert(d[d.len() - 1] == d.last());
            }
            lemma_nothing_moves(c);
        }
    }
}

/// A document without an archive heading in which no list item qualifies is
/// left unchanged.
pub proof fn nothing_to_archive(d: Seq<Tree>)
    requires
        first_heading(d) is None,
        forall|i: int, j: int|
            0 <= i < d.len() && (d[i] is List) && 0 <= j < d[i]->List_children.len() ==> !moves(
                #[trigger] d[i]->List_children[j],
            ),
    ensures
        archive_model(d) is None,
{
    let p = scope_end(d);
    lemma_scope_end_range(d);
    let scope = d.subrange(0, p);
    assert forall|i: int, j: int|
        0 <= i < scope.len() && (scope[i] is List) && 0 <= j < scope[i]->List_children.len()
            implies !moves(#[trigger] scope[i]->List_children[j]) by {
        assert(scope[i] == d[i]);
    }
    lemma_quiet_scope(scope);
}

/// What a list of the scope becomes before the heading: itself when nothing
/// leaves it, else a list with its marker and spacing holding the items that
/// stay.
pub open spec fn remaining(t: Tree) -> Tree {
    match t {
        Tree::List { ordered, start, spread, children } => if archived_items(children).len() == 0 {
            t
        } else {
            Tree::List { ordered, start, spread, children: kept_items(children) }
        },
        _ => t,
    }
}

/// The list that a list of the scope sends to the archive section: its marker
/// and spacing, with the items that leave it.
pub open spec fn moved_part(t: Tree) -> Tree {
    match t {
        Tree::List { ordered, start, spread, children } => Tree::List {
            ordered,
            start,
            spread,
            children: archived_items(children),
        },
        _ => t,
    }
}

proof fn lemma_survivor_in_scope(s: Seq<Tree>, i: int)
    requires
        0 <= i < s.len(),
        s[i] is List ==> (archived_items(s[i]->List_children).len() == 0 || kept_items(
            s[i]->List_children,
        ).len() > 0),
    ensures
        process_scope(s).contains(remaining(s[i])),
    decreases s.len(),
{
    let r = process_scope(s.drop_last());
    let p = process_scope(s);
    assert(r.len() <= p.len() && forall|w: int| 0 <= w < r.len() ==> p[w] == #[trigger] r[w]);
    if i < s.len() - 1 {
        assert(s.drop_last()[i] == s[i]);
        lemma_survivor_in_scope(s.drop_last(), i);
        let w = choose|w: int| 0 <= w < r.len() && r[w] == remaining(s[i]);
        assert(p[w] == r[w]);
    } else {
        assert(p.last() == remaining(s.last()));
    }
}

proof fn lemma_moved_part_in_archive(s: Seq<Tree>, i: int)
    requires
        0 <= i < s.len(),
        s[i] is List,
        archived_items(s[i]->List_children).len() > 0,
    ensures
        archived_lists(s).contains(moved_part(s[i])),
    decreases s.len(),
{
    let a = archived_lists(s.drop_last());
    let b = archived_lists(s);
    assert(a.len() <= b.len() && forall|w: int| 0 <= w < a.len() ==> b[w] == #[trigger] a[w]);
    if i < s.len() - 1 {
        assert(s.drop_last()[i] == s[i]);
        lemma_moved_part_in_archive(s.drop_last(), i);
        let w = choose|w: int| 0 <= w < a.len() && a[w] == moved_part(s[i]);
        assert(b[w] == a[w]);
    } else {
        assert(b.last() == moved_part(s.last()));
    }
}

proof fn lemma_archived_lists_move(s: Seq<Tree>)
    ensures
        forall|m: int| 0 <= m < archived_lists(s).len() ==> #[trigger] archived_lists(s)[m] is List,
        forall|m: int, n: int|
            0 <= m < archived_lists(s).len() && 0 <= n < archived_lists(s)[m]->List_children.len()
                ==> moves(#[trigger] archived_lists(s)[m]->List_children[n]),
    decreases s.len(),
{
    if s.len() > 0 {
        lemma_archived_lists_move(s.drop_last());
        let a = archived_lists(s.drop_last());
        let b = archived_lists(s);
        assert forall|m: int| 0 <= m < b.len() implies #[trigger] b[m] is List by {
            if m < a.len() {
                assert(b[m] == a[m]);
            }
        }
        assert forall|m: int, n: int|
            0 <= m < b.len() && 0 <= n < b[m]->List_children.len() implies moves(
            #[trigger] b[m]->List_children[n],
        ) by {
            if m < a.len() {
                assert(b[m] == a[m]);
            } else {
                let c = s.last()->List_children;
                lemma_moved_all_move(c);
                assert(b[m]->List_children[n] == archived_items(c)[n]);
            }
        }
    }
}

proof fn lemma_processed_lists_stay(s: Seq<Tree>)
    ensures
        forall|m: int, n: int|
            0 <= m < process_scope(s).len() && process_scope(s)[m] is List && 0 <= n
                < process_scope(s)[m]->List_children.len() ==> !moves(
                #[trigger] process_scope(s)[m]->List_children[n],
            ),
    decreases s.len(),
{
    if s.len() > 0 {
        lemma_processed_lists_stay(s.drop_last());
        let r = process_scope(s.drop_last());
        if s.last() is List {
            let c = s.last()->List_children;
            lemma_moved_all_move(c);
            assert forall|n: int| 0 <= n < c.len() && archived_items(c).len() == 0 implies !moves(
                #[trigger] c[n],
            ) by {
                lemma_items_sorted(c, n);
            }
        }
        assert forall|m: int, n: int|
            0 <= m < process_scope(s).len() && process_scope(s)[m] is List && 0 <= n
                < process_scope(s)[m]->List_children.len() implies !moves(
            #[trigger] process_scope(s)[m]->List_children[n],
        ) by {
            if m < r.len() {
                assert(process_scope(s)[m] == r[m]);
            }
        }
    }
}

/// An item marked unchecked in a list before the archive heading never
/// moves, whatever its children are: it stays in what remains of its list,
/// before the heading, and no list of the archive section holds an item marked
/// unchecked.
pub proof fn unchecked_item_never_moves(d: Seq<Tree>, i: int, j: int)
    requires
        0 <= i < scope_end(d),
        d[i] is List,
        0 <= j < d[i]->List_children.len(),
        d[i]->List_children[j] matches Tree::ListItem { checked: Some(false), .. },
        archive_model(d) is Some,
    ensures
        ({
            let scope = d.subrange(0, scope_end(d));
            let r = archive_model(d)->0;
            let k = process_scope(scope).len() as int;
            let x = d[i]->List_children[j];
            &&& exists|m: int| 0 <= m < k && r[m] == remaining(d[i])
            &&& remaining(d[i])->List_children.contains(x)
            &&& forall|m: int, n: int|
                k < m <= k + archived_lists(scope).len() ==> r[m] is List && (0 <= n
                    < r[m]->List_children.len() ==> !(#[trigger] r[m]->List_children[n] matches Tree::ListItem {
                    checked: Some(false),
                    ..
                }))
        }),
{
    lemma_scope_end_range(d);
    let scope = d.subrange(0, scope_end(d));
    let r = archive_model(d)->0;
    let pre = process_scope(scope);
    let a = archived_lists(scope);
    let k = pre.len() as int;
    let c = d[i]->List_children;
    let x = c[j];
    assert(scope[i] == d[i]);
    lemma_items_sorted(c, j);
    if archived_items(c).len() > 0 {
        let w = choose|w: int| 0 <= w < kept_items(c).len() && kept_items(c)[w] == x;
    } else {
        assert(c[j] == x);
    }
    lemma_survivor_in_scope(scope, i);
    let m = choose|m: int| 0 <= m < pre.len() && pre[m] == remaining(d[i]);
    assert(r[m] == pre[m]);
    lemma_archived_lists_move(scope);
    assert forall|m: int, n: int|
        k < m <= k + a.len() implies r[m] is List && (0 <= n < r[m]->List_children.len() ==> !(
        #[trigger] r[m]->List_children[n] matches Tree::ListItem { checked: Some(false), .. })) by {
        assert(r[m] == a[m - k - 1]);
    }
}

/// A checked item in a list before the archive heading whose children all
/// qualify (checked sub-items included) moves as one unit: the archive section
/// holds its list's moved part, which contains the very same subtree, and no
/// list before the heading still holds it.
pub proof fn completed_item_moves_whole(d: Seq<Tree>, i: int, j: int)
    requires
        0 <= i < scope_end(d),
        d[i] is List,
        0 <= j < d[i]->List_children.len(),
        d[i]->List_children[j] matches Tree::ListItem { checked: Some(true), children, .. }
            && all_archivable(children),
    ensures
        archive_model(d) is Some,
        ({
            let scope = d.subrange(0, scope_end(d));
            let r = archive_model(d)->0;
            let k = process_scope(scope).len() as int;
            let x = d[i]->List_children[j];
            &&& exists|m: int| k < m <= k + archived_lists(scope).len() && r[m] == moved_part(d[i])
            &&& moved_part(d[i])->List_children.contains(x)
            &&& forall|m: int, n: int|
                0 <= m < k && r[m] is List && 0 <= n < r[m]->List_children.len()
                    ==> #[trigger] r[m]->List_children[n] != x
        }),
{
    lemma_scope_end_range(d);
    let scope = d.subrange(0, scope_end(d));
    let pre = process_scope(scope);
    let a = archived_lists(scope);
    let k = pre.len() as int;
    let c = d[i]->List_children;
    let x = c[j];
    assert(scope[i] == d[i]);
    assert(moves(x));
    lemma_items_sorted(c, j);
    lemma_moved_part_in_archive(scope, i);
    let w = choose|w: int| 0 <= w < a.len() && a[w] == moved_part(d[i]);
    let r = archive_model(d)->0;
    assert(r[k + 1 + w] == a[w]);
    lemma_processed_lists_stay(scope);
    assert forall|m: int, n: int|
        0 <= m < k && r[m] is List && 0 <= n < r[m]->List_children.len() implies #[trigger] r[m]->List_children[n]
        != x by {
        assert(r[m] == pre[m]);
    }
}

} // verus!
