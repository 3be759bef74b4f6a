use vstd::prelude::*;

use crate::entry::{all_well_formed, lemma_all_well_formed_index, lists_children, well_formed, Node};
use crate::walk::{
    add_child, add_children, feed, listing, next, node_events, start, EventModel, Stack,
    StepModel,
};

verus! {

/// Feeding two runs of events one after the other is feeding the first,
/// then the second from where the first left off.
pub proof fn lemma_feed_concat(st: Stack, a: Seq<EventModel>, b: Seq<EventModel>)
    ensures
        feed(st, a + b) == (match feed(st, a) {
            Some(s) => feed(s, b),
            None => None,
        }),
    decreases a.len(),
{
    if a.len() == 0 {
        assert(a + b =~= b);
    } else {
        assert((a + b)[0] == a[0]);
        assert((a + b).subrange(1, (a + b).len() as int) =~= a.subrange(1, a.len() as int) + b);
        lemma_feed_concat(next(st, a[0]).0, a.subrange(1, a.len() as int), b);
    }
}

/// The events of one well-formed node add exactly that node to the
/// innermost open directory, and every step on the way goes on.
pub proof fn lemma_node_events(st: Stack, n: Node)
    requires
        st.len() > 0,
        well_formed(n),
    ensures
        feed(st, node_events(n)) == Some(add_child(st, n)),
    decreases n, 1int,
{
    reveal_with_fuel(feed, 2);
    if n.is_dir {
        let opened = st.push((n.name, Seq::<Node>::empty()));
        let d = seq![EventModel::Dir(n.name)];
        let e = seq![EventModel::End];
        let l = listing(n.children);
        assert(node_events(n) == d + l + e);
        lemma_feed_concat(st, d + l, e);
        lemma_feed_concat(st, d, l);
        assert(feed(st, d) == Some(opened)) by {
            assert(d.subrange(1, 1) =~= Seq::<EventModel>::empty());
        }
        lemma_listing(opened, n.children);
        let filled = add_children(opened, n.children);
        assert(filled =~= st.push((n.name, n.children)));
        assert(filled.drop_last() =~= st);
        assert(feed(filled, e) == Some(add_child(st, n))) by {
            assert(e.subrange(1, 1) =~= Seq::<EventModel>::empty());
        }
    } else {
        assert(n.children =~= Seq::<Node>::empty());
        let evs = node_events(n);
        assert(evs.subrange(1, 1) =~= Seq::<EventModel>::empty());
    }
}

/// The events of a pre-order listing of well-formed nodes add exactly those
/// nodes, in order, to the innermost open directory, and every step on the
/// way goes on.
pub proof fn lemma_listing(st: Stack, ns: Seq<Node>)
    requires
        st.len() > 0,
        all_well_formed(ns),
    ensures
        feed(st, listing(ns)) == Some(add_children(st, ns)),
    decreases ns, 0int,
{
    if ns.len() == 0 {
        assert(st.last().1 + ns =~= st.last().1);
        assert(add_children(st, ns) =~= st);
    } else {
        let front = ns.subrange(0, ns.len() - 1);
        let last = ns[ns.len() - 1];
        lemma_feed_concat(st, listing(front), node_events(last));
        lemma_listing(st, front);
        let mid = add_children(st, front);
        lemma_node_events(mid, last);
        assert(front.push(last) =~= ns);
        assert(add_child(mid, last) =~= add_children(st, ns));
    }
}

/// Scanning a directory whose entries are reported in pre-order gives back
/// exactly that directory: every entry once, at its own depth, in the order
/// listed. No step before the directory's closing `End` ends the scan.
pub proof fn lemma_scan_mirrors_tree(t: Node)
    requires
        t.is_dir,
        well_formed(t),
    ensures
        feed(start(t.name), listing(t.children)) == Some(seq![(t.name, t.children)]),
        next(seq![(t.name, t.children)], EventModel::End) == (Stack::empty(), Ok::<
            StepModel,
            crate::walk::ScanError,
        >(StepModel::Done(t))),
{
    lemma_listing(start(t.name), t.children);
    assert(add_children(start(t.name), t.children) =~= seq![(t.name, t.children)]);
    let st = seq![(t.name, t.children)];
    assert(st.drop_last() =~= Stack::empty());
}

/// Two scans give the same tree exactly when the listings they were fed
/// came from the same snapshot, in the same order: nothing else goes into
/// the result.
pub proof fn lemma_rescan_identical(t1: Node, t2: Node)
    requires
        t1.is_dir,
        well_formed(t1),
        t2.is_dir,
        well_formed(t2),
    ensures
        (next(seq![(t1.name, t1.children)], EventModel::End) == next(
            seq![(t2.name, t2.children)],
            EventModel::End,
        )) == (t1 == t2),
{
    lemma_scan_mirrors_tree(t1);
    lemma_scan_mirrors_tree(t2);
}

/// Every child of a well-formed entry is well formed, so what holds of a
/// well-formed entry holds of every entry below it.
pub proof fn lemma_child_well_formed(n: Node, i: int)
    requires
        well_formed(n),
        0 <= i < n.children.len(),
    ensures
        well_formed(n.children[i]),
{
    lemma_all_well_formed_index(n.children, i);
}

/// A well-formed entry that lists children is a directory; one that lists
/// none is a file, unless it is an empty directory.
pub proof fn lemma_dir_flag(n: Node)
    requires
        well_formed(n),
    ensures
        lists_children(n) ==> n.is_dir,
        !lists_children(n) && !(n.is_dir && n.children.len() == 0) ==> !n.is_dir,
{
}

} // verus!
