use vstd::prelude::*;

verus! {

/// An entry of the tree as a mathematical value: a name, a directory flag
/// and the ordered children.
pub struct Node {
    pub name: Seq<char>,
    pub is_dir: bool,
    pub children: Seq<Node>,
}

/// A file or directory of a scanned tree.
#[derive(Debug, PartialEq, Eq)]
pub struct Entry {
    /// The base name, not the full path.
    pub name: String,
    pub is_dir: bool,
    /// In listing order; empty for every file.
    pub children: Vec<Entry>,
}

/// The model of an entry.
pub open spec fn node_of(e: Entry) -> Node
    decreases e, 1int,
{
    Node { name: e.name@, is_dir: e.is_dir, children: nodes_of(e.children@) }
}

/// The models of a sequence of entries, position by position.
pub open spec fn nodes_of(s: Seq<Entry>) -> Seq<Node>
    decreases s, 0int,
{
    if s.len() == 0 {
        Seq::empty()
    } else {
        nodes_of(s.subrange(0, s.len() - 1)).push(node_of(s[s.len() - 1]))
    }
}

/// A file has no children, and the same holds all the way down.
pub open spec fn well_formed(n: Node) -> bool
    decreases n, 1int,
{
    &&& (!n.is_dir ==> n.children.len() == 0)
    &&& all_well_formed(n.children)
}

/// Every node of a sequence is well formed.
pub open spec fn all_well_formed(s: Seq<Node>) -> bool
    decreases s, 0int,
{
    s.len() == 0 || (all_well_formed(s.subrange(0, s.len() - 1)) && well_formed(s[s.len() - 1]))
}

/// A node is a directory with at least one child: exactly the nodes
/// that carry a `children` field when written out.
pub open spec fn lists_children(n: Node) -> bool {
    n.is_dir && n.children.len() > 0
}

pub proof fn lemma_all_well_formed_push(s: Seq<Node>, n: Node)
    ensures
        all_well_formed(s.push(n)) == (all_well_formed(s) && well_formed(n)),
{
    assert(s.push(n).subrange(0, s.len() as int) =~= s);
}

pub proof fn lemma_all_well_formed_index(s: Seq<Node>, i: int)
    requires
        all_well_formed(s),
        0 <= i < s.len(),
    ensures
        well_formed(s[i]),
    decreases s.len(),
{
    if i < s.len() - 1 {
        lemma_all_well_formed_index(s.subrange(0, s.len() - 1), i);
    }
}

pub proof fn lemma_nodes_of_len(s: Seq<Entry>)
    ensures
        nodes_of(s).len() == s.len(),
    decreases s.len(),
{
    if s.len() > 0 {
        lemma_nodes_of_len(s.subrange(0, s.len() - 1));
    }
}

pub proof fn lemma_nodes_of_push(s: Seq<Entry>, e: Entry)
    ensures
        nodes_of(s.push(e)) == nodes_of(s).push(node_of(e)),
{
    assert(s.push(e).subrange(0, s.len() as int) =~= s);
}

impl Entry {
    /// A file entry.
    pub fn file(name: String) -> (r: Entry)
        ensures
            node_of(r) == (Node { name: name@, is_dir: false, children: Seq::empty() }),
            well_formed(node_of(r)),
    {
        let r = Entry { name, is_dir: false, children: Vec::new() };
        assert(nodes_of(r.children@) =~= Seq::<Node>::empty());
        r
    }

    /// Whether this entry writes out a `children` field.
    pub fn has_children(&self) -> (r: bool)
        ensures
            r == lists_children(node_of(*self)),
    {
        proof {
            lemma_nodes_of_len(self.children@);
        }
        self.is_dir && self.children.len() > 0
    }
}

} // verus!
