//! The family graph: an interning table of morphological fragments.

use vstd::prelude::*;
use vstd::string::StringExecFns;

use crate::text::str_equal;

verus! {

/// The role of a fragment in a word.
#[derive(Debug, Clone, Copy, PartialEq, Eq, Structural)]
pub enum NodeType {
    Prefix,
    Root,
    Suffix,
}

/// Index of a node of a [`FamilyGraph`].
pub type NodeId = usize;

/// A fragment and its role.
pub struct FamilyNode {
    pub node_type: NodeType,
    pub text: String,
}

/// A word as the ids of its prefix (if any), root and suffix (if any).
#[derive(Debug, Clone, Copy, PartialEq, Eq, Structural)]
pub struct CompositeToken {
    pub prefix_id: Option<NodeId>,
    pub root_id: NodeId,
    pub suffix_id: Option<NodeId>,
}

/// Index of the first occurrence of `e` in `es` at or after `i`.
pub open spec fn find_entry(es: Seq<(NodeType, Seq<char>)>, e: (NodeType, Seq<char>), i: int) -> Option<int>
    decreases es.len() - i,
{
    if i < 0 || i >= es.len() {
        None
    } else if es[i] == e {
        Some(i)
    } else {
        find_entry(es, e, i + 1)
    }
}

/// Interning `e`: the index of its first occurrence, or, when it is absent,
/// the table with `e` appended and the new index.
pub open spec fn intern_entry(es: Seq<(NodeType, Seq<char>)>, e: (NodeType, Seq<char>)) -> (
    Seq<(NodeType, Seq<char>)>,
    int,
) {
    match find_entry(es, e, 0) {
        Some(i) => (es, i),
        None => (es.push(e), es.len() as int),
    }
}

/// An interning table of (role, text) fragments; a fragment's id is its index.
pub struct FamilyGraph {
    nodes: Vec<FamilyNode>,
}

impl FamilyGraph {
    /// The fragments in id order.
    pub closed spec fn entries(&self) -> Seq<(NodeType, Seq<char>)> {
        self.nodes@.map_values(|n: FamilyNode| (n.node_type, n.text@))
    }

    /// An empty graph.
    pub fn new() -> (g: Self)
        ensures
            g.entries() == Seq::<(NodeType, Seq<char>)>::empty(),
    {
        let g = FamilyGraph { nodes: Vec::new() };
        assert(g.entries() =~= Seq::<(NodeType, Seq<char>)>::empty());
        g
    }

    /// Number of fragments.
    pub fn len(&self) -> (n: usize)
        ensures
            n == self.entries().len(),
    {
        self.nodes.len()
    }

    /// The id of the fragment `(node_type, text)`, added first if absent.
    pub fn insert_node(&mut self, node_type: NodeType, text: &str) -> (id: NodeId)
        ensures
            final(self).entries() == intern_entry(old(self).entries(), (node_type, text@)).0,
            id as int == intern_entry(old(self).entries(), (node_type, text@)).1,
    {
        let ghost es = self.entries();
        let ghost e = (node_type, text@);
        let mut i: usize = 0;
        while i < self.nodes.len()
            invariant
                es == self.entries(),
                es == old(self).entries(),
                e == (node_type, text@),
                self.nodes == old(self).nodes,
                self.nodes@.len() == es.len(),
                i <= es.len(),
                find_entry(es, e, i as int) == find_entry(es, e, 0),
            decreases es.len() - i,
        {
            let same = self.nodes[i].node_type == node_type && str_equal(
                self.nodes[i].text.as_str(),
                text,
            );
            assert(es[i as int] == (self.nodes@[i as int].node_type, self.nodes@[i as int].text@));
            if same {
                return i;
            }
            i = i + 1;
        }
        let id = self.nodes.len();
        self.nodes.push(FamilyNode { node_type, text: String::from_str(text) });
        assert(self.entries() =~= es.push(e));
        id
    }
}

/// Once a fragment is in the table, appending leaves its first index alone.
pub proof fn lemma_find_entry_push(
    es: Seq<(NodeType, Seq<char>)>,
    x: (NodeType, Seq<char>),
    e: (NodeType, Seq<char>),
    i: int,
)
    requires
        0 <= i <= es.len(),
    ensures
        find_entry(es, e, i) is Some ==> find_entry(es.push(x), e, i) == find_entry(es, e, i),
        find_entry(es, e, i) is None ==> find_entry(es.push(x), e, i) == (if x == e {
            Some(es.len() as int)
        } else {
            None::<int>
        }),
    decreases es.len() - i,
{
    if i < es.len() {
        assert(es.push(x)[i] == es[i]);
        lemma_find_entry_push(es, x, e, i + 1);
    } else {
        assert(es.push(x)[i] == x);
        assert(find_entry(es.push(x), e, i + 1) is None);
    }
}

/// After interning `e`, the table finds `e` at the id that interning returned.
pub proof fn lemma_intern_entry_found(es: Seq<(NodeType, Seq<char>)>, e: (NodeType, Seq<char>))
    ensures
        find_entry(intern_entry(es, e).0, e, 0) == Some(intern_entry(es, e).1),
{
    if find_entry(es, e, 0) is None {
        lemma_find_entry_push(es, e, e, 0);
    }
}

/// Interning another fragment leaves the id of a fragment already present alone.
pub proof fn lemma_intern_entry_keeps(
    es: Seq<(NodeType, Seq<char>)>,
    x: (NodeType, Seq<char>),
    e: (NodeType, Seq<char>),
    i: int,
)
    requires
        find_entry(es, e, 0) == Some(i),
    ensures
        find_entry(intern_entry(es, x).0, e, 0) == Some(i),
{
    if find_entry(es, x, 0) is None {
        lemma_find_entry_push(es, x, e, 0);
    }
}


/// Interning only appends: every fragment already in the table keeps its id.
pub proof fn lemma_intern_entry_appends(es: Seq<(NodeType, Seq<char>)>, e: (NodeType, Seq<char>))
    ensures
        intern_entry(es, e).0.len() >= es.len(),
        intern_entry(es, e).0.take(es.len() as int) == es,
{
    assert(es.push(e).take(es.len() as int) =~= es);
    assert(es.take(es.len() as int) =~= es);
}

} // verus!
