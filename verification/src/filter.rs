//! The node filter: takes matched nodes, with their subtrees, out of the
//! tree.

use vstd::prelude::*;
use crate::dom::{lemma_detached_unreachable, lemma_subsequence_contained, Document};
use crate::html::{is_selection, lemma_selection_in_order, selection};

verus! {

/// Whether node `i` is one of `ids`.
pub open spec fn is_listed(ids: Seq<usize>, i: int) -> bool {
    exists|k: int| 0 <= k < ids.len() && #[trigger] ids[k] == i
}

/// The parent that node `i` has once the nodes `ids` are detached.
pub open spec fn parent_without(doc: &Document, ids: Seq<usize>, i: int) -> Option<usize> {
    if is_listed(ids, i) {
        None
    } else {
        doc.parent(i)
    }
}

/// Whether `after` is `before` with the nodes `ids` detached: the same nodes
/// with the same content, each node of `ids` without parent and every other
/// node with the parent it had.
pub open spec fn is_removal(before: &Document, after: &Document, ids: Seq<usize>) -> bool {
    &&& after.wf()
    &&& after.len() == before.len()
    &&& forall|i: int| 0 <= i < before.len() ==> #[trigger] after.data(i) == before.data(i)
    &&& forall|i: int|
        0 <= i < before.len() ==> #[trigger] after.parent(i) == parent_without(before, ids, i)
}

/// Detaches every node of `ids` from its parent. The nodes keep their
/// content and their subtrees, but are no longer reached from the root.
/// Indices that are no nodes, the root, and nodes that are detached already
/// are passed over.
///
/// The parent links that are stated here fix the whole tree: see
/// [`lemma_children_determined`].
pub fn remove_nodes(doc: &mut Document, ids: &Vec<usize>)
    requires
        old(doc).wf(),
    ensures
        is_removal(old(doc), final(doc), ids@),
        final(doc).wf(),
        final(doc).len() == old(doc).len(),
        forall|i: int|
            0 <= i < old(doc).len() ==> #[trigger] final(doc).data(i) == old(doc).data(i),
        forall|i: int|
            0 <= i < old(doc).len() ==> #[trigger] final(doc).parent(i) == parent_without(
                old(doc),
                ids@,
                i,
            ),
        (forall|j: int|
            0 <= j < ids@.len() ==> (#[trigger] ids@[j]) >= old(doc).len() || old(doc).parent(
                ids@[j] as int,
            ) is None) ==> *final(doc) == *old(doc),
{
    let ghost start = *doc;
    let mut j: usize = 0;
    while j < ids.len()
        invariant
            start.wf(),
            doc.wf(),
            doc.len() == start.len(),
            j <= ids.len(),
            forall|i: int| 0 <= i < start.len() ==> #[trigger] doc.data(i) == start.data(i),
            forall|i: int|
                0 <= i < start.len() ==> #[trigger] doc.parent(i) == parent_without(
                    &start,
                    ids@.take(j as int),
                    i,
                ),
            (forall|k: int|
                0 <= k < j ==> (#[trigger] ids@[k]) >= start.len() || start.parent(
                    ids@[k] as int,
                ) is None) ==> *doc == start,
        decreases ids.len() - j,
    {
        let x: usize = ids[j];
        let ghost before = *doc;
        doc.detach(x);
        proof {
            let done = ids@.take(j as int);
            let next = ids@.take(j + 1);
            assert(next.drop_last() == done);
            assert(next.last() == x);
            assert forall|i: int| 0 <= i < start.len() implies #[trigger] doc.data(i)
                == start.data(i) by {
                assert(before.data(i) == start.data(i));
                if x < start.len() && before.parent(x as int) is Some {
                    let p = before.parent(x as int)->0;
                    if i != x && i != p {
                        assert(doc.node(i) == before.node(i));
                    }
                }
            }
            assert forall|i: int| 0 <= i < start.len() implies #[trigger] doc.parent(i)
                == parent_without(&start, next, i) by {
                assert(before.parent(i) == parent_without(&start, done, i));
                if is_listed(done, i) {
                    let k = choose|k: int| 0 <= k < done.len() && #[trigger] done[k] == i;
                    assert(next[k] == i);
                }
                if is_listed(next, i) && i != x {
                    let k = choose|k: int| 0 <= k < next.len() && #[trigger] next[k] == i;
                    assert(next[j as int] == x);
                    assert(done[k] == i);
                }
                if i == x {
                    assert(next[j as int] == x);
                }
                if x < start.len() && before.parent(x as int) is Some {
                    let p = before.parent(x as int)->0;
                    if i != x && i != p {
                        assert(doc.node(i) == before.node(i));
                    }
                }
            }
            if forall|k: int|
                0 <= k < j + 1 ==> (#[trigger] ids@[k]) >= start.len() || start.parent(
                    ids@[k] as int,
                ) is None {
                assert(ids@[j as int] == x);
                assert(before == start);
            }
        }
        j = j + 1;
    }
    assert(ids@.take(ids.len() as int) == ids@);
}

/// Whether the items of `s` grow strictly.
pub open spec fn is_increasing(s: Seq<usize>) -> bool {
    forall|j: int, k: int| 0 <= j < k < s.len() ==> s[j] < s[k]
}

/// Two strictly growing sequences with the same items are the same sequence.
pub proof fn lemma_increasing_determined(s: Seq<usize>, t: Seq<usize>)
    requires
        is_increasing(s),
        is_increasing(t),
        forall|x: usize| s.contains(x) <==> t.contains(x),
    ensures
        s == t,
    decreases s.len(),
{
    if s.len() == 0 {
        if t.len() > 0 {
            assert(t.contains(t[0]));
        }
        assert(s =~= t);
    } else {
        assert(s.contains(s.last()));
        let a = s.last();
        let ia = choose|i: int| 0 <= i < t.len() && t[i] == a;
        let b = t.last();
        assert(t.contains(b));
        let ib = choose|i: int| 0 <= i < s.len() && s[i] == b;
        assert(a == b);
        let s0 = s.drop_last();
        let t0 = t.drop_last();
        assert forall|x: usize| s0.contains(x) <==> t0.contains(x) by {
            if s0.contains(x) {
                let i = choose|i: int| 0 <= i < s0.len() && s0[i] == x;
                assert(s[i] == x);
                assert(s.contains(x));
                let k = choose|k: int| 0 <= k < t.len() && t[k] == x;
                assert(x < a);
                assert(t0[k] == x);
            }
            if t0.contains(x) {
                let i = choose|i: int| 0 <= i < t0.len() && t0[i] == x;
                assert(t[i] == x);
                assert(t.contains(x));
                let k = choose|k: int| 0 <= k < s.len() && s[k] == x;
                assert(x < b);
                assert(s0[k] == x);
            }
        }
        lemma_increasing_determined(s0, t0);
        assert(s =~= s0.push(a));
        assert(t =~= t0.push(b));
    }
}

/// The parent links fix the tree: two well-formed documents of one size in
/// which every node has the same parent give every node the same children.
pub proof fn lemma_children_determined(a: &Document, b: &Document)
    requires
        a.wf(),
        b.wf(),
        a.len() == b.len(),
        forall|i: int| 0 <= i < a.len() ==> #[trigger] a.parent(i) == b.parent(i),
    ensures
        forall|i: int| 0 <= i < a.len() ==> #[trigger] a.children(i) == b.children(i),
{
    assert forall|p: int| 0 <= p < a.len() implies #[trigger] a.children(p) == b.children(p) by {
        let s = a.children(p);
        let t = b.children(p);
        assert(is_increasing(s));
        assert(is_increasing(t));
        assert forall|x: usize| s.contains(x) <==> t.contains(x) by {
            if s.contains(x) {
                let k = choose|k: int| 0 <= k < s.len() && s[k] == x;
                assert(a.children(p)[k] == x);
                assert(a.parent(x as int) == Some(p as usize));
                assert(b.parent(x as int) == Some(p as usize));
            }
            if t.contains(x) {
                let k = choose|k: int| 0 <= k < t.len() && t[k] == x;
                assert(b.children(p)[k] == x);
                assert(b.parent(x as int) == Some(p as usize));
                assert(a.parent(x as int) == Some(p as usize));
            }
        }
        lemma_increasing_determined(s, t);
    }
}

/// A node that was removed is never selected again: whatever a later
/// selection in the filtered document gives, none of the removed elements is
/// among its matches.
pub proof fn lemma_removed_not_selected(
    before: &Document,
    after: &Document,
    removed: Seq<usize>,
    selection: Seq<usize>,
)
    requires
        before.wf(),
        after.wf(),
        after.len() == before.len(),
        is_selection(before, removed),
        forall|i: int|
            0 <= i < before.len() ==> #[trigger] after.parent(i) == parent_without(
                before,
                removed,
                i,
            ),
        is_selection(after, selection),
    ensures
        forall|j: int| 0 <= j < removed.len() ==> !selection.contains(#[trigger] removed[j]),
{
    lemma_subsequence_contained(selection, after.subtree(0));
    assert forall|j: int| 0 <= j < removed.len() implies !selection.contains(
        #[trigger] removed[j],
    ) by {
        let x = removed[j];
        assert(before.data(x as int) is Element);
        assert(x != 0);
        assert(is_listed(removed, x as int));
        assert(after.parent(x as int) == parent_without(before, removed, x as int));
        lemma_detached_unreachable(after, x);
        if selection.contains(x) {
            let k = choose|k: int| 0 <= k < selection.len() && selection[k] == x;
            assert(after.subtree(0).contains(selection[k]));
        }
    }
}

/// What a removal selector took out is never selected again: after the
/// selection of `selector` has been detached, no selector, the same or
/// another, selects any of its nodes in the document that is left.
pub proof fn lemma_removal_lasts(
    before: &Document,
    after: &Document,
    selector: Seq<char>,
    later: Seq<char>,
)
    requires
        before.wf(),
        is_removal(before, after, selection(before, selector)),
    ensures
        forall|j: int|
            0 <= j < selection(before, selector).len() ==> !selection(after, later).contains(
                #[trigger] selection(before, selector)[j],
            ),
{
    lemma_selection_in_order(before, selector);
    lemma_selection_in_order(after, later);
    lemma_removed_not_selected(
        before,
        after,
        selection(before, selector),
        selection(after, later),
    );
}

} // verus!
