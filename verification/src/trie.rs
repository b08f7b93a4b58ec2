//! A character trie kept in an arena of nodes, and the vocabulary it spells.

use std::collections::HashMap;
use vstd::prelude::*;
use vstd::utf8::char_u32_cast;

verus! {

broadcast use vstd::std_specs::hash::group_hash_axioms;

/// A node of the morphological trie. Children are indices into the arena
/// that holds the node, keyed by the code point of the next character.
pub struct TrieNode {
    pub children: HashMap<u32, usize>,
    pub token_id: Option<u16>,
    /// The node's fragment was trained as the root of a word.
    pub is_root: bool,
    /// The node's fragment was trained as the suffix of a word.
    pub is_suffix: bool,
}

impl Default for TrieNode {
    /// A node with no children and no token.
    fn default() -> (n: Self)
        ensures
            n.children@ == Map::<u32, usize>::empty(),
            n.token_id is None,
            !n.is_root,
            !n.is_suffix,
    {
        TrieNode { children: HashMap::new(), token_id: None, is_root: false, is_suffix: false }
    }
}

/// Characters with the same code point are the same character.
pub proof fn lemma_char_code_injective(a: char, b: char)
    requires
        a as u32 == b as u32,
    ensures
        a == b,
{
    char_u32_cast(a, a as u32);
    char_u32_cast(b, b as u32);
}

/// The child of node `n` along character `c`.
pub open spec fn trie_child(nodes: Seq<TrieNode>, n: int, c: char) -> Option<int> {
    if nodes[n].children@.contains_key(c as u32) {
        Some(nodes[n].children@[c as u32] as int)
    } else {
        None
    }
}

/// The node reached from the root (node 0) by following the characters of `w`.
pub open spec fn trie_lookup(nodes: Seq<TrieNode>, w: Seq<char>) -> Option<int>
    decreases w.len(),
{
    if w.len() == 0 {
        Some(0)
    } else {
        match trie_lookup(nodes, w.drop_last()) {
            Some(m) => trie_child(nodes, m, w.last()),
            None => None,
        }
    }
}

/// The token of the word `w`: that of the node it reaches, if any.
pub open spec fn trie_token(nodes: Seq<TrieNode>, w: Seq<char>) -> Option<u16> {
    match trie_lookup(nodes, w) {
        Some(n) => nodes[n].token_id,
        None => None,
    }
}

/// The vocabulary a trie spells: each word that reaches a node with a
/// token, mapped to that token.
pub open spec fn trie_words(nodes: Seq<TrieNode>) -> Map<Seq<char>, u16> {
    Map::new(|w: Seq<char>| trie_token(nodes, w) is Some, |w: Seq<char>| trie_token(nodes, w)->0)
}

/// Whether the node that `w` reaches is marked as a root.
pub open spec fn trie_is_root(nodes: Seq<TrieNode>, w: Seq<char>) -> bool {
    match trie_lookup(nodes, w) {
        Some(n) => nodes[n].is_root,
        None => false,
    }
}

/// Whether the node that `w` reaches is marked as a suffix.
pub open spec fn trie_is_suffix(nodes: Seq<TrieNode>, w: Seq<char>) -> bool {
    match trie_lookup(nodes, w) {
        Some(n) => nodes[n].is_suffix,
        None => false,
    }
}

/// The words whose nodes are marked as roots.
pub open spec fn trie_roots(nodes: Seq<TrieNode>) -> Set<Seq<char>> {
    Set::new(|w: Seq<char>| trie_is_root(nodes, w))
}

/// The words whose nodes are marked as suffixes.
pub open spec fn trie_suffixes(nodes: Seq<TrieNode>) -> Set<Seq<char>> {
    Set::new(|w: Seq<char>| trie_is_suffix(nodes, w))
}

/// The arena is a tree: `labels[n]` is the word spelled on the way to node
/// `n`, every edge extends its parent's word by the edge's character, and
/// looking a node's word up leads back to that node.
pub open spec fn trie_wf(nodes: Seq<TrieNode>, labels: Seq<Seq<char>>) -> bool {
    &&& nodes.len() >= 1
    &&& labels.len() == nodes.len()
    &&& labels[0] == Seq::<char>::empty()
    &&& forall|n: int, k: u32|
        0 <= n < nodes.len() && #[trigger] nodes[n].children@.contains_key(k) ==> {
            let m = nodes[n].children@[k] as int;
            &&& 0 < m < nodes.len()
            &&& labels[m].len() == labels[n].len() + 1
            &&& labels[m].drop_last() == labels[n]
            &&& labels[m].last() as u32 == k
        }
    &&& forall|n: int| 0 <= n < nodes.len() ==> trie_lookup(nodes, #[trigger] labels[n]) == Some(n)
}

/// Looking a word up only ever reaches the node labelled by that word.
pub proof fn lemma_lookup_sound(nodes: Seq<TrieNode>, labels: Seq<Seq<char>>, w: Seq<char>)
    requires
        trie_wf(nodes, labels),
    ensures
        trie_lookup(nodes, w) matches Some(n) ==> 0 <= n < nodes.len() && labels[n] == w,
    decreases w.len(),
{
    if w.len() > 0 {
        lemma_lookup_sound(nodes, labels, w.drop_last());
        if let Some(m) = trie_lookup(nodes, w.drop_last()) {
            let k = w.last() as u32;
            if nodes[m].children@.contains_key(k) {
                let n = nodes[m].children@[k] as int;
                assert(labels[n].last() as u32 == k);
                lemma_char_code_injective(labels[n].last(), w.last());
                assert(labels[n] =~= labels[n].drop_last().push(labels[n].last()));
                assert(w =~= w.drop_last().push(w.last()));
            }
        }
    }
}

/// Once a prefix of `t` reaches no node, no longer prefix does.
pub proof fn lemma_lookup_none_extends(nodes: Seq<TrieNode>, t: Seq<char>, l: int, m: int)
    requires
        0 <= l <= m <= t.len(),
        trie_lookup(nodes, t.take(l)) is None,
    ensures
        trie_lookup(nodes, t.take(m)) is None,
    decreases m - l,
{
    if l < m {
        lemma_lookup_none_extends(nodes, t, l, m - 1);
        assert(t.take(m).drop_last() =~= t.take(m - 1));
    }
}

/// Looking up `w` followed by `c` is following `c` from where `w` leads.
pub proof fn lemma_lookup_push(nodes: Seq<TrieNode>, w: Seq<char>, c: char)
    ensures
        trie_lookup(nodes, w.push(c)) == match trie_lookup(nodes, w) {
            Some(m) => trie_child(nodes, m, c),
            None => None,
        },
{
    assert(w.push(c).drop_last() =~= w);
}

/// `nodes2` is `nodes` with a fresh leaf `nodes.len()` hung below `p` along `c`,
/// where `p` had no child along `c`.
pub open spec fn adds_leaf(nodes: Seq<TrieNode>, nodes2: Seq<TrieNode>, p: int, c: char) -> bool {
    &&& 0 <= p < nodes.len() <= usize::MAX
    &&& !nodes[p].children@.contains_key(c as u32)
    &&& nodes2.len() == nodes.len() + 1
    &&& nodes2[nodes.len() as int].children@ == Map::<u32, usize>::empty()
    &&& nodes2[nodes.len() as int].token_id is None
    &&& !nodes2[nodes.len() as int].is_root
    &&& !nodes2[nodes.len() as int].is_suffix
    &&& nodes2[p].children@ == nodes[p].children@.insert(c as u32, nodes.len() as usize)
    &&& nodes2[p].token_id == nodes[p].token_id
    &&& nodes2[p].is_root == nodes[p].is_root
    &&& nodes2[p].is_suffix == nodes[p].is_suffix
    &&& forall|i: int| 0 <= i < nodes.len() && i != p ==> #[trigger] nodes2[i] == nodes[i]
}

/// Adding a leaf keeps every existing lookup.
proof fn lemma_adds_leaf_keeps(
    nodes: Seq<TrieNode>,
    nodes2: Seq<TrieNode>,
    labels: Seq<Seq<char>>,
    p: int,
    c: char,
    w: Seq<char>,
)
    requires
        trie_wf(nodes, labels),
        adds_leaf(nodes, nodes2, p, c),
    ensures
        trie_lookup(nodes, w) matches Some(x) ==> trie_lookup(nodes2, w) == Some(x),
    decreases w.len(),
{
    if w.len() > 0 {
        lemma_adds_leaf_keeps(nodes, nodes2, labels, p, c, w.drop_last());
        lemma_lookup_sound(nodes, labels, w.drop_last());
        if let Some(m) = trie_lookup(nodes, w.drop_last()) {
            if m == p && w.last() as u32 == c as u32 {
                lemma_char_code_injective(w.last(), c);
            }
        }
    }
}

/// Adding a leaf, labelled by its parent's word and the new character,
/// keeps the trie a tree and leaves the vocabulary unchanged.
pub proof fn lemma_adds_leaf(
    nodes: Seq<TrieNode>,
    nodes2: Seq<TrieNode>,
    labels: Seq<Seq<char>>,
    p: int,
    c: char,
)
    requires
        trie_wf(nodes, labels),
        adds_leaf(nodes, nodes2, p, c),
    ensures
        trie_wf(nodes2, labels.push(labels[p].push(c))),
        trie_words(nodes2) == trie_words(nodes),
        trie_roots(nodes2) == trie_roots(nodes),
        trie_suffixes(nodes2) == trie_suffixes(nodes),
        trie_lookup(nodes2, labels[p].push(c)) == Some(nodes.len() as int),
{
    let labels2 = labels.push(labels[p].push(c));
    let nn = nodes.len() as int;
    assert forall|n: int, k: u32|
        0 <= n < nodes2.len() && #[trigger] nodes2[n].children@.contains_key(k) implies {
        let m = nodes2[n].children@[k] as int;
        &&& 0 < m < nodes2.len()
        &&& labels2[m].len() == labels2[n].len() + 1
        &&& labels2[m].drop_last() == labels2[n]
        &&& labels2[m].last() as u32 == k
    } by {
        if n == nn {
            assert(nodes2[nn].children@ == Map::<u32, usize>::empty());
        } else if n == p && k == c as u32 {
            assert(nodes2[n].children@[k] == nn as usize);
            assert(labels2[p] == labels[p]);
            assert(labels2[nn] == labels[p].push(c));
            assert(labels2[nn].drop_last() =~= labels2[p]);
            assert(labels2[nn].last() == c);
        } else if n == p {
            assert(nodes[p].children@.contains_key(k));
            let m = nodes[p].children@[k] as int;
            assert(nodes2[n].children@[k] == nodes[p].children@[k]);
            assert(labels2[m] == labels[m]);
            assert(labels2[p] == labels[p]);
        } else {
            assert(nodes2[n] == nodes[n]);
            assert(nodes[n].children@.contains_key(k));
            let m = nodes[n].children@[k] as int;
            assert(labels2[m] == labels[m]);
            assert(labels2[n] == labels[n]);
        }
    }
    assert forall|n: int| 0 <= n < nodes2.len() implies trie_lookup(nodes2, #[trigger] labels2[n])
        == Some(n) by {
        if n < nn {
            assert(labels2[n] == labels[n]);
            assert(trie_lookup(nodes, labels[n]) == Some(n));
            lemma_adds_leaf_keeps(nodes, nodes2, labels, p, c, labels[n]);
        } else {
            lemma_lookup_push(nodes2, labels[p], c);
            assert(trie_lookup(nodes, labels[p]) == Some(p));
            lemma_adds_leaf_keeps(nodes, nodes2, labels, p, c, labels[p]);
        }
    }
    assert(trie_wf(nodes2, labels2));
    assert forall|w: Seq<char>| #[trigger] trie_lookup(nodes2, w) == trie_lookup(nodes2, w) implies {
        &&& trie_token(nodes2, w) == trie_token(nodes, w)
        &&& trie_is_root(nodes2, w) == trie_is_root(nodes, w)
        &&& trie_is_suffix(nodes2, w) == trie_is_suffix(nodes, w)
    } by {
        lemma_adds_leaf_keeps(nodes, nodes2, labels, p, c, w);
        lemma_lookup_sound(nodes2, labels2, w);
        lemma_lookup_sound(nodes, labels, w);
        if let Some(x) = trie_lookup(nodes2, w) {
            if x < nn {
                assert(labels2[x] == labels[x]);
                assert(trie_lookup(nodes, labels[x]) == Some(x));
                if x != p {
                    assert(nodes2[x] == nodes[x]);
                }
            }
        }
    }
    assert(trie_words(nodes2) =~= trie_words(nodes));
    assert(trie_roots(nodes2) =~= trie_roots(nodes));
    assert(trie_suffixes(nodes2) =~= trie_suffixes(nodes));
    lemma_lookup_push(nodes2, labels[p], c);
    assert(trie_lookup(nodes, labels[p]) == Some(p));
    lemma_adds_leaf_keeps(nodes, nodes2, labels, p, c, labels[p]);
}

/// Lookups depend only on the children of the nodes.
pub proof fn lemma_same_shape(
    nodes: Seq<TrieNode>,
    nodes2: Seq<TrieNode>,
    labels: Seq<Seq<char>>,
    w: Seq<char>,
)
    requires
        trie_wf(nodes, labels),
        nodes2.len() == nodes.len(),
        forall|i: int| 0 <= i < nodes.len() ==> #[trigger] nodes2[i].children@ == nodes[i].children@,
    ensures
        trie_lookup(nodes2, w) == trie_lookup(nodes, w),
    decreases w.len(),
{
    if w.len() > 0 {
        lemma_same_shape(nodes, nodes2, labels, w.drop_last());
        lemma_lookup_sound(nodes, labels, w.drop_last());
        if let Some(m) = trie_lookup(nodes, w.drop_last()) {
            assert(nodes2[m].children@ == nodes[m].children@);
        }
    }
}

/// Giving node `n` a token (its children unchanged) keeps the trie a tree
/// and adds the node's word to the vocabulary.
pub proof fn lemma_set_token(
    nodes: Seq<TrieNode>,
    nodes2: Seq<TrieNode>,
    labels: Seq<Seq<char>>,
    n: int,
    id: u16,
)
    requires
        trie_wf(nodes, labels),
        0 <= n < nodes.len(),
        nodes2.len() == nodes.len(),
        nodes2[n].children@ == nodes[n].children@,
        nodes2[n].token_id == Some(id),
        nodes2[n].is_root == nodes[n].is_root,
        nodes2[n].is_suffix == nodes[n].is_suffix,
        forall|i: int| 0 <= i < nodes.len() && i != n ==> #[trigger] nodes2[i] == nodes[i],
    ensures
        trie_wf(nodes2, labels),
        trie_words(nodes2) == trie_words(nodes).insert(labels[n], id),
        trie_roots(nodes2) == trie_roots(nodes),
        trie_suffixes(nodes2) == trie_suffixes(nodes),
{
    assert forall|i: int| 0 <= i < nodes.len() implies #[trigger] nodes2[i].children@
        == nodes[i].children@ by {
        if i != n {
            assert(nodes2[i] == nodes[i]);
        }
    }
    assert forall|w: Seq<char>| #[trigger] trie_lookup(nodes2, w) == trie_lookup(nodes, w) by {
        lemma_same_shape(nodes, nodes2, labels, w);
    }
    assert forall|m: int, k: u32|
        0 <= m < nodes2.len() && #[trigger] nodes2[m].children@.contains_key(k) implies {
        let x = nodes2[m].children@[k] as int;
        &&& 0 < x < nodes2.len()
        &&& labels[x].len() == labels[m].len() + 1
        &&& labels[x].drop_last() == labels[m]
        &&& labels[x].last() as u32 == k
    } by {
        assert(nodes[m].children@.contains_key(k));
    }
    assert forall|m: int| 0 <= m < nodes2.len() implies trie_lookup(nodes2, #[trigger] labels[m])
        == Some(m) by {
        assert(trie_lookup(nodes, labels[m]) == Some(m));
    }
    assert forall|w: Seq<char>| #[trigger] trie_token(nodes2, w) == (if w == labels[n] {
        Some(id)
    } else {
        trie_token(nodes, w)
    }) by {
        lemma_lookup_sound(nodes, labels, w);
        assert(trie_lookup(nodes, labels[n]) == Some(n));
        if let Some(x) = trie_lookup(nodes, w) {
            if x != n {
                assert(nodes2[x] == nodes[x]);
            }
        }
    }
    assert(trie_words(nodes2) =~= trie_words(nodes).insert(labels[n], id));
    assert forall|w: Seq<char>| #[trigger] trie_lookup(nodes2, w) == trie_lookup(nodes2, w) implies {
        &&& trie_is_root(nodes2, w) == trie_is_root(nodes, w)
        &&& trie_is_suffix(nodes2, w) == trie_is_suffix(nodes, w)
    } by {
        lemma_lookup_sound(nodes, labels, w);
        if let Some(x) = trie_lookup(nodes, w) {
            if x != n {
                assert(nodes2[x] == nodes[x]);
            }
        }
    }
    assert(trie_roots(nodes2) =~= trie_roots(nodes));
    assert(trie_suffixes(nodes2) =~= trie_suffixes(nodes));
}

/// Marking node `n` as a root (when `root`) or as a suffix (when `suffix`),
/// its children and token unchanged, keeps the trie a tree and the
/// vocabulary as it was, and adds the node's word to the marked set.
pub proof fn lemma_set_flags(
    nodes: Seq<TrieNode>,
    nodes2: Seq<TrieNode>,
    labels: Seq<Seq<char>>,
    n: int,
    root: bool,
    suffix: bool,
)
    requires
        trie_wf(nodes, labels),
        0 <= n < nodes.len(),
        nodes2.len() == nodes.len(),
        nodes2[n].children@ == nodes[n].children@,
        nodes2[n].token_id == nodes[n].token_id,
        nodes2[n].is_root == (nodes[n].is_root || root),
        nodes2[n].is_suffix == (nodes[n].is_suffix || suffix),
        forall|i: int| 0 <= i < nodes.len() && i != n ==> #[trigger] nodes2[i] == nodes[i],
    ensures
        trie_wf(nodes2, labels),
        trie_words(nodes2) == trie_words(nodes),
        trie_roots(nodes2) == (if root {
            trie_roots(nodes).insert(labels[n])
        } else {
            trie_roots(nodes)
        }),
        trie_suffixes(nodes2) == (if suffix {
            trie_suffixes(nodes).insert(labels[n])
        } else {
            trie_suffixes(nodes)
        }),
{
    assert forall|i: int| 0 <= i < nodes.len() implies #[trigger] nodes2[i].children@
        == nodes[i].children@ by {
        if i != n {
            assert(nodes2[i] == nodes[i]);
        }
    }
    assert forall|w: Seq<char>| #[trigger] trie_lookup(nodes2, w) == trie_lookup(nodes, w) by {
        lemma_same_shape(nodes, nodes2, labels, w);
    }
    assert forall|m: int, k: u32|
        0 <= m < nodes2.len() && #[trigger] nodes2[m].children@.contains_key(k) implies {
        let x = nodes2[m].children@[k] as int;
        &&& 0 < x < nodes2.len()
        &&& labels[x].len() == labels[m].len() + 1
        &&& labels[x].drop_last() == labels[m]
        &&& labels[x].last() as u32 == k
    } by {
        assert(nodes[m].children@.contains_key(k));
    }
    assert forall|m: int| 0 <= m < nodes2.len() implies trie_lookup(nodes2, #[trigger] labels[m])
        == Some(m) by {
        assert(trie_lookup(nodes, labels[m]) == Some(m));
    }
    assert(trie_lookup(nodes, labels[n]) == Some(n));
    assert forall|w: Seq<char>| #[trigger] trie_lookup(nodes2, w) == trie_lookup(nodes2, w) implies {
        &&& trie_token(nodes2, w) == trie_token(nodes, w)
        &&& trie_is_root(nodes2, w) == (trie_is_root(nodes, w) || (root && w == labels[n]))
        &&& trie_is_suffix(nodes2, w) == (trie_is_suffix(nodes, w) || (suffix && w == labels[n]))
    } by {
        lemma_lookup_sound(nodes, labels, w);
        if let Some(x) = trie_lookup(nodes, w) {
            if x != n {
                assert(nodes2[x] == nodes[x]);
            }
        }
    }
    assert(trie_words(nodes2) =~= trie_words(nodes));
    if root {
        assert(trie_roots(nodes2) =~= trie_roots(nodes).insert(labels[n]));
    } else {
        assert(trie_roots(nodes2) =~= trie_roots(nodes));
    }
    if suffix {
        assert(trie_suffixes(nodes2) =~= trie_suffixes(nodes).insert(labels[n]));
    } else {
        assert(trie_suffixes(nodes2) =~= trie_suffixes(nodes));
    }
}

} // verus!
