//! Morphological tokenizer: a vocabulary of word fragments (the prefixes,
//! roots and suffixes of whitespace-separated words) kept
//! in a character trie, and greedy longest-match encoding against it.

use std::collections::HashMap;
use vstd::prelude::*;
use vstd::string::{StrSliceExecFns, StringExecFns};

use crate::text::str_chars;
use crate::decomposer::{decompose_spec, lemma_decompose_reassembles, Factorizer};
use crate::trie::{
    lemma_adds_leaf, lemma_lookup_none_extends, lemma_lookup_push, lemma_lookup_sound,
    lemma_set_flags, lemma_set_token, trie_is_root, trie_is_suffix, trie_lookup, trie_roots,
    trie_suffixes, trie_token, trie_wf, trie_words, TrieNode,
};
use crate::ubc::UbcToken;
use crate::words::{lemma_split_ws_pieces, split_whitespace_spans, split_ws};

verus! {

broadcast use vstd::std_specs::hash::group_hash_axioms;

/// Training on one fragment: an unknown fragment gets the next free id.
pub open spec fn train_step(words: Map<Seq<char>, u16>, next: int, w: Seq<char>) -> (
    Map<Seq<char>, u16>,
    int,
) {
    if words.contains_key(w) {
        (words, next)
    } else {
        (words.insert(w, next as u16), next + 1)
    }
}

/// Training on a sequence of fragments, in order.
pub open spec fn train_words(words: Map<Seq<char>, u16>, next: int, ws: Seq<Seq<char>>) -> (
    Map<Seq<char>, u16>,
    int,
)
    decreases ws.len(),
{
    if ws.len() == 0 {
        (words, next)
    } else {
        let (m, n) = train_step(words, next, ws[0]);
        train_words(m, n, ws.drop_first())
    }
}

/// A fragment as a sequence of at most one entry: none when it is empty.
pub open spec fn optional_fragment(f: Seq<char>) -> Seq<Seq<char>> {
    if f.len() > 0 {
        seq![f]
    } else {
        seq![]
    }
}

/// The fragments a word is trained as: its prefix, root and suffix (as
/// [`decompose_spec`] splits it), in that order, leaving out empty ones.
pub open spec fn word_fragments(w: Seq<char>) -> Seq<Seq<char>> {
    optional_fragment(decompose_spec(w).0) + optional_fragment(decompose_spec(w).1)
        + optional_fragment(decompose_spec(w).2)
}

/// The fragments of a sequence of words, word after word.
pub open spec fn corpus_fragments(ws: Seq<Seq<char>>) -> Seq<Seq<char>>
    decreases ws.len(),
{
    if ws.len() == 0 {
        seq![]
    } else {
        word_fragments(ws[0]) + corpus_fragments(ws.drop_first())
    }
}

/// A fragment as a set: empty when the fragment is empty.
pub open spec fn fragment_set(f: Seq<char>) -> Set<Seq<char>> {
    if f.len() > 0 {
        set![f]
    } else {
        Set::empty()
    }
}

/// The (non-empty) roots of a sequence of words.
pub open spec fn corpus_roots(ws: Seq<Seq<char>>) -> Set<Seq<char>>
    decreases ws.len(),
{
    if ws.len() == 0 {
        Set::empty()
    } else {
        fragment_set(decompose_spec(ws[0]).1).union(corpus_roots(ws.drop_first()))
    }
}

/// The (non-empty) suffixes of a sequence of words.
pub open spec fn corpus_suffixes(ws: Seq<Seq<char>>) -> Set<Seq<char>>
    decreases ws.len(),
{
    if ws.len() == 0 {
        Set::empty()
    } else {
        fragment_set(decompose_spec(ws[0]).2).union(corpus_suffixes(ws.drop_first()))
    }
}

/// Word ids and the id table agree: the known words are numbered
/// `1..next` without gaps, and each id names exactly one word.
pub open spec fn vocabulary_matches(
    words: Map<Seq<char>, u16>,
    ids: Map<u16, Seq<char>>,
    next: u16,
) -> bool {
    &&& 1 <= next
    &&& forall|w: Seq<char>|
        #[trigger] words.contains_key(w) ==> 1 <= words[w] < next && ids.contains_key(words[w])
            && ids[words[w]] == w
    &&& forall|i: u16| #[trigger] ids.contains_key(i) <==> 1 <= i < next
    &&& forall|i: u16|
        #[trigger] ids.contains_key(i) ==> words.contains_key(ids[i]) && words[ids[i]] == i
}

/// Length of the longest prefix of `t`, of at most `l` characters and at
/// least one, that is a known word; 0 when there is none.
pub open spec fn longest_match(words: Map<Seq<char>, u16>, t: Seq<char>, l: int) -> int
    decreases l,
{
    if l <= 0 {
        0
    } else if words.contains_key(t.take(l)) {
        l
    } else {
        longest_match(words, t, l - 1)
    }
}

pub proof fn lemma_longest_match_bounds(words: Map<Seq<char>, u16>, t: Seq<char>, l: int)
    ensures
        0 <= longest_match(words, t, l),
        l >= 0 ==> longest_match(words, t, l) <= l,
        longest_match(words, t, l) > 0 ==> words.contains_key(t.take(longest_match(words, t, l))),
    decreases l,
{
    if l > 0 && !words.contains_key(t.take(l)) {
        lemma_longest_match_bounds(words, t, l - 1);
    }
}

/// Greedy longest-match encoding: at each position emit the id of the
/// longest known word starting there and skip it, or emit 0 (unknown) and
/// skip one character.
pub open spec fn encode_words(words: Map<Seq<char>, u16>, t: Seq<char>) -> Seq<u16>
    decreases t.len(),
{
    if t.len() == 0 {
        seq![]
    } else {
        let l = longest_match(words, t, t.len() as int);
        proof {
            lemma_longest_match_bounds(words, t, t.len() as int);
        }
        if l > 0 {
            seq![words[t.take(l)]] + encode_words(words, t.skip(l))
        } else {
            seq![0u16] + encode_words(words, t.skip(1))
        }
    }
}

/// The ids carried by a sequence of tokens.
pub open spec fn token_values(v: Seq<UbcToken>) -> Seq<u16> {
    v.map_values(|t: UbcToken| t.0)
}

/// A vocabulary of fragments held in a character trie, with an id table.
pub struct MorphologicalTokenizer {
    nodes: Vec<TrieNode>,
    next_id: u16,
    vocab: HashMap<u16, String>,
    labels: Ghost<Seq<Seq<char>>>,
}

impl MorphologicalTokenizer {
    /// The known fragments and their ids.
    pub closed spec fn words(&self) -> Map<Seq<char>, u16> {
        trie_words(self.nodes@)
    }

    /// The id table: each id and the fragment it names.
    pub closed spec fn id_words(&self) -> Map<u16, Seq<char>> {
        Map::new(|i: u16| self.vocab@.contains_key(i), |i: u16| self.vocab@[i]@)
    }

    /// The fragments marked as roots.
    pub closed spec fn roots(&self) -> Set<Seq<char>> {
        trie_roots(self.nodes@)
    }

    /// The fragments marked as suffixes.
    pub closed spec fn suffixes(&self) -> Set<Seq<char>> {
        trie_suffixes(self.nodes@)
    }

    /// The id the next new fragment will get.
    pub closed spec fn next(&self) -> u16 {
        self.next_id
    }

    /// The trie is a tree, and the vocabulary and id table agree.
    pub closed spec fn wf(&self) -> bool {
        &&& trie_wf(self.nodes@, self.labels@)
        &&& vocabulary_matches(self.words(), self.id_words(), self.next_id)
    }

    /// An empty vocabulary; ids start at 1 (0 stands for unknown text).
    pub fn new() -> (t: Self)
        ensures
            t.wf(),
            t.words() == Map::<Seq<char>, u16>::empty(),
            t.id_words() == Map::<u16, Seq<char>>::empty(),
            t.roots() == Set::<Seq<char>>::empty(),
            t.suffixes() == Set::<Seq<char>>::empty(),
            t.next() == 1,
    {
        let mut nodes: Vec<TrieNode> = Vec::new();
        nodes.push(TrieNode::default());
        let ghost root_labels = seq![Seq::<char>::empty()];
        let t = MorphologicalTokenizer {
            nodes,
            next_id: 1,
            vocab: HashMap::new(),
            labels: Ghost(root_labels),
        };
        proof {
            assert(trie_wf(t.nodes@, t.labels@));
            assert forall|w: Seq<char>| !(#[trigger] trie_token(t.nodes@, w) is Some) by {
                lemma_lookup_sound(t.nodes@, t.labels@, w);
            }
            assert(t.words() =~= Map::<Seq<char>, u16>::empty());
            assert forall|w: Seq<char>| !(#[trigger] trie_is_root(t.nodes@, w)) && !trie_is_suffix(t.nodes@, w) by {
                lemma_lookup_sound(t.nodes@, t.labels@, w);
            }
            assert(t.roots() =~= Set::<Seq<char>>::empty());
            assert(t.suffixes() =~= Set::<Seq<char>>::empty());
            assert(t.id_words() =~= Map::<u16, Seq<char>>::empty());
        }
        t
    }

    /// The id the next new fragment will get.
    pub fn next_id(&self) -> (n: u16)
        ensures
            n == self.next(),
    {
        self.next_id
    }

    /// The fragment that `id` names, if any.
    pub fn vocab_word(&self, id: u16) -> (w: Option<String>)
        ensures
            match w {
                Some(s) => self.id_words().contains_key(id) && s@ == self.id_words()[id],
                None => !self.id_words().contains_key(id),
            },
    {
        match self.vocab.get(&id) {
            Some(s) => Some(s.clone()),
            None => None,
        }
    }

    /// The trie node that `chars` reaches from the root, if any.
    fn find_node(&self, chars: &Vec<char>) -> (r: Option<usize>)
        requires
            self.wf(),
        ensures
            match r {
                Some(n) => n < self.nodes@.len() && trie_lookup(self.nodes@, chars@) == Some(n as int),
                None => trie_lookup(self.nodes@, chars@) is None,
            },
    {
        let n = chars.len();
        let mut cur: usize = 0;
        let mut j: usize = 0;
        assert(chars@.take(0) =~= Seq::<char>::empty());
        while j < n
            invariant
                self.wf(),
                j <= n == chars@.len(),
                0 <= cur < self.nodes@.len(),
                trie_lookup(self.nodes@, chars@.take(j as int)) == Some(cur as int),
            decreases n - j,
        {
            let ghost prefix = chars@.take(j as int);
            assert(chars@.take(j + 1) =~= prefix.push(chars@[j as int]));
            proof {
                lemma_lookup_push(self.nodes@, prefix, chars@[j as int]);
            }
            match self.nodes[cur].children.get(&(chars[j] as u32)) {
                Some(m) => {
                    cur = *m;
                },
                None => {
                    proof {
                        lemma_lookup_none_extends(self.nodes@, chars@, j + 1, n as int);
                        assert(chars@.take(n as int) =~= chars@);
                    }
                    return None;
                },
            }
            j = j + 1;
        }
        assert(chars@.take(n as int) =~= chars@);
        Some(cur)
    }

    /// Whether `fragment` has been trained as the root of a word.
    pub fn is_root(&self, fragment: &str) -> (b: bool)
        requires
            self.wf(),
        ensures
            b == self.roots().contains(fragment@),
    {
        let chars = str_chars(fragment);
        match self.find_node(&chars) {
            Some(n) => self.nodes[n].is_root,
            None => false,
        }
    }

    /// Whether `fragment` has been trained as the suffix of a word.
    pub fn is_suffix(&self, fragment: &str) -> (b: bool)
        requires
            self.wf(),
        ensures
            b == self.suffixes().contains(fragment@),
    {
        let chars = str_chars(fragment);
        match self.find_node(&chars) {
            Some(n) => self.nodes[n].is_suffix,
            None => false,
        }
    }

    /// Adds the fragment `frag` to the vocabulary unless it is known, and
    /// marks it as a root (when `root`) and as a suffix (when `suffix`).
    fn insert_fragment(&mut self, frag: &str, root: bool, suffix: bool)
        requires
            old(self).wf(),
            train_step(old(self).words(), old(self).next() as int, frag@).1 <= u16::MAX,
        ensures
            final(self).wf(),
            (final(self).words(), final(self).next() as int) == train_step(
                old(self).words(),
                old(self).next() as int,
                frag@,
            ),
            final(self).roots() == (if root {
                old(self).roots().insert(frag@)
            } else {
                old(self).roots()
            }),
            final(self).suffixes() == (if suffix {
                old(self).suffixes().insert(frag@)
            } else {
                old(self).suffixes()
            }),
    {
        let chars = str_chars(frag);
        let b = chars.len();
        let ghost word = frag@;
        let ghost words0 = self.words();
        let ghost roots0 = self.roots();
        let ghost suffixes0 = self.suffixes();
        let mut cur: usize = 0;
        let mut j: usize = 0;
        assert(chars@.take(0) =~= Seq::<char>::empty());
        while j < b
            invariant
                j <= b == chars@.len(),
                chars@ == word,
                trie_wf(self.nodes@, self.labels@),
                self.words() == words0,
                self.roots() == roots0,
                self.suffixes() == suffixes0,
                self.next_id == old(self).next_id,
                self.vocab@ == old(self).vocab@,
                0 <= cur < self.nodes@.len(),
                trie_lookup(self.nodes@, chars@.take(j as int)) == Some(cur as int),
            decreases b - j,
        {
            let c = chars[j];
            let key = c as u32;
            let ghost prefix = chars@.take(j as int);
            assert(chars@.take(j + 1) =~= prefix.push(c));
            proof {
                lemma_lookup_push(self.nodes@, prefix, c);
            }
            let found = match self.nodes[cur].children.get(&key) {
                Some(m) => Some(*m),
                None => None,
            };
            match found {
                Some(m) => {
                    cur = m;
                },
                None => {
                    let m = self.nodes.len();
                    let ghost old_nodes = self.nodes@;
                    let ghost old_labels = self.labels@;
                    self.nodes.push(TrieNode::default());
                    self.nodes[cur].children.insert(key, m);
                    proof {
                        lemma_lookup_sound(old_nodes, old_labels, prefix);
                        lemma_adds_leaf(old_nodes, self.nodes@, old_labels, cur as int, c);
                    }
                    self.labels = Ghost(old_labels.push(old_labels[cur as int].push(c)));
                    cur = m;
                },
            }
            j = j + 1;
        }
        assert(chars@.take(b as int) =~= word);
        proof {
            lemma_lookup_sound(self.nodes@, self.labels@, word);
        }
        if self.nodes[cur].token_id.is_none() {
            let id = self.next_id;
            let ghost old_nodes = self.nodes@;
            self.nodes[cur].token_id = Some(id);
            proof {
                lemma_set_token(old_nodes, self.nodes@, self.labels@, cur as int, id);
            }
            let text = String::from_str(frag);
            self.vocab.insert(id, text);
            self.next_id = self.next_id + 1;
            proof {
                assert(!words0.contains_key(word));
                assert(self.words() == words0.insert(word, id));
                let ids0 = Map::new(|i: u16| old(self).vocab@.contains_key(i), |i: u16| old(self).vocab@[i]@);
                assert(self.id_words() =~= ids0.insert(id, word));
            }
        } else {
            proof {
                assert(words0.contains_key(word));
            }
        }
        let new_root = self.nodes[cur].is_root || root;
        let new_suffix = self.nodes[cur].is_suffix || suffix;
        let ghost before = self.nodes@;
        self.nodes[cur].is_root = new_root;
        self.nodes[cur].is_suffix = new_suffix;
        proof {
            lemma_set_flags(before, self.nodes@, self.labels@, cur as int, root, suffix);
        }
    }

    /// Trains on every whitespace-separated word of `corpus`, in order: each
    /// word is split into prefix, root and suffix, each non-empty fragment
    /// that is unknown gets the next id, roots are marked as roots and
    /// suffixes as suffixes.
    pub fn train_morphology(&mut self, corpus: &str)
        requires
            old(self).wf(),
            train_words(
                old(self).words(),
                old(self).next() as int,
                corpus_fragments(split_ws(corpus@)),
            ).1 <= u16::MAX,
        ensures
            final(self).wf(),
            (final(self).words(), final(self).next() as int) == train_words(
                old(self).words(),
                old(self).next() as int,
                corpus_fragments(split_ws(corpus@)),
            ),
            final(self).roots() == old(self).roots().union(corpus_roots(split_ws(corpus@))),
            final(self).suffixes() == old(self).suffixes().union(corpus_suffixes(split_ws(corpus@))),
            vocabulary_matches(final(self).words(), final(self).id_words(), final(self).next()),
    {
        let chars = str_chars(corpus);
        let spans = split_whitespace_spans(&chars);
        let ghost ws = split_ws(corpus@);
        let ghost target = train_words(self.words(), self.next_id as int, corpus_fragments(ws));
        let ghost roots_t = self.roots().union(corpus_roots(ws));
        let ghost suffixes_t = self.suffixes().union(corpus_suffixes(ws));
        let mut k: usize = 0;
        assert(ws.skip(0) =~= ws);
        while k < spans.len()
            invariant
                chars@ == corpus@,
                ws == split_ws(corpus@),
                spans@.len() == ws.len(),
                forall|q: int|
                    #![trigger spans@[q]]
                    0 <= q < spans@.len() ==> {
                        &&& spans@[q].0 <= spans@[q].1 <= chars@.len()
                        &&& chars@.subrange(spans@[q].0 as int, spans@[q].1 as int) == ws[q]
                    },
                k <= spans@.len(),
                self.wf(),
                train_words(self.words(), self.next_id as int, corpus_fragments(ws.skip(k as int)))
                    == target,
                target.1 <= u16::MAX,
                self.roots().union(corpus_roots(ws.skip(k as int))) == roots_t,
                self.suffixes().union(corpus_suffixes(ws.skip(k as int))) == suffixes_t,
            decreases spans@.len() - k,
        {
            let (a, b) = spans[k];
            let word = corpus.substring_char(a, b);
            let (p, r, x) = Factorizer::decompose(word);
            let ghost s0 = (self.words(), self.next_id as int);
            let ghost rest = corpus_fragments(ws.skip(k + 1));
            let ghost s1 = train_words(s0.0, s0.1, optional_fragment(p@));
            let ghost s2 = train_words(s1.0, s1.1, optional_fragment(r@));
            let ghost s3 = train_words(s2.0, s2.1, optional_fragment(x@));
            proof {
                let here = ws.skip(k as int);
                assert(here[0] == ws[k as int]);
                assert(here.drop_first() =~= ws.skip(k + 1));
                assert(corpus_fragments(here) == word_fragments(ws[k as int]) + rest);
                lemma_train_word_stages(s0.0, s0.1, p@, r@, x@, rest);
            }
            if !p.is_empty() {
                proof {
                    lemma_train_single(s0.0, s0.1, p@);
                }
                self.insert_fragment(p, false, false);
            }
            assert((self.words(), self.next_id as int) == s1);
            if !r.is_empty() {
                proof {
                    lemma_train_single(s1.0, s1.1, r@);
                }
                self.insert_fragment(r, true, false);
            }
            assert((self.words(), self.next_id as int) == s2);
            if !x.is_empty() {
                proof {
                    lemma_train_single(s2.0, s2.1, x@);
                }
                self.insert_fragment(x, false, true);
            }
            assert((self.words(), self.next_id as int) == s3);
            proof {
                let here = ws.skip(k as int);
                assert(corpus_roots(here) == fragment_set(r@).union(corpus_roots(ws.skip(k + 1))));
                assert(corpus_suffixes(here) == fragment_set(x@).union(corpus_suffixes(ws.skip(k + 1))));
                assert(self.roots().union(corpus_roots(ws.skip(k + 1))) =~= roots_t);
                assert(self.suffixes().union(corpus_suffixes(ws.skip(k + 1))) =~= suffixes_t);
            }
            k = k + 1;
        }
        assert(ws.skip(ws.len() as int) =~= Seq::<Seq<char>>::empty());
        assert(self.roots().union(Set::<Seq<char>>::empty()) =~= self.roots());
        assert(self.suffixes().union(Set::<Seq<char>>::empty()) =~= self.suffixes());
    }

    /// Greedy longest-match encoding of `text` against the vocabulary; text
    /// matching no known word is encoded as 0, one character at a time.
    pub fn encode(&self, text: &str) -> (v: Vec<UbcToken>)
        requires
            self.wf(),
        ensures
            token_values(v@) == encode_words(self.words(), text@),
    {
        let chars = str_chars(text);
        let n = chars.len();
        let ghost words = self.words();
        let ghost s = chars@;
        let mut tokens: Vec<UbcToken> = Vec::new();
        let mut i: usize = 0;
        assert(s.skip(0) =~= s);
        while i < n
            invariant
                n == s.len(),
                s == chars@,
                s == text@,
                words == self.words(),
                self.wf(),
                i <= n,
                token_values(tokens@) + encode_words(words, s.skip(i as int)) == encode_words(words, s),
            decreases n - i,
        {
            let ghost rest = s.skip(i as int);
            let mut cur: usize = 0;
            let mut best_len: usize = 0;
            let mut best_id: u16 = 0;
            let mut j: usize = i;
            assert(s.subrange(i as int, i as int) =~= Seq::<char>::empty());
            loop
                invariant
                    n == s.len(),
                    s == chars@,
                    words == self.words(),
                    self.wf(),
                    rest == s.skip(i as int),
                    i <= j <= n,
                    0 <= cur < self.nodes@.len(),
                    trie_lookup(self.nodes@, s.subrange(i as int, j as int)) == Some(cur as int),
                    best_len == longest_match(words, rest, j - i),
                    best_len > 0 ==> best_id == words[rest.take(best_len as int)],
                ensures
                    i <= j <= n,
                    best_len == longest_match(words, rest, n - i),
                    best_len > 0 ==> best_id == words[rest.take(best_len as int)],
                decreases n - j,
            {
                if j >= n {
                    break;
                }
                let key = chars[j] as u32;
                let ghost prefix = s.subrange(i as int, j as int);
                proof {
                    assert(s.subrange(i as int, j + 1) =~= prefix.push(s[j as int]));
                    lemma_lookup_push(self.nodes@, prefix, s[j as int]);
                    assert(rest.take(j + 1 - i) =~= s.subrange(i as int, j + 1));
                }
                let found = match self.nodes[cur].children.get(&key) {
                    Some(m) => Some(*m),
                    None => None,
                };
                match found {
                    Some(m) => {
                        cur = m;
                        match self.nodes[cur].token_id {
                            Some(id) => {
                                best_len = j + 1 - i;
                                best_id = id;
                            },
                            None => {},
                        }
                        j = j + 1;
                    },
                    None => {
                        proof {
                            lemma_no_longer_match(self.nodes@, words, rest, j - i, n - i);
                        }
                        break;
                    },
                }
            }
            proof {
                lemma_longest_match_bounds(words, rest, (n - i) as int);
            }
            if best_len > 0 {
                tokens.push(UbcToken(best_id));
                proof {
                    assert(rest.skip(best_len as int) =~= s.skip(i + best_len));
                }
                i = i + best_len;
            } else {
                tokens.push(UbcToken(0));
                proof {
                    assert(rest.skip(1) =~= s.skip(i + 1));
                }
                i = i + 1;
            }
            proof {
                let prev = tokens@.drop_last();
                assert(token_values(tokens@) =~= token_values(prev).push(tokens@.last().0));
            }
        }
        assert(s.skip(n as int) =~= Seq::<char>::empty());
        assert(token_values(tokens@) =~= encode_words(words, s));
        tokens
    }
}

/// Training only adds ids: the next id never goes down.
pub proof fn lemma_train_words_grows(words: Map<Seq<char>, u16>, next: int, ws: Seq<Seq<char>>)
    ensures
        train_words(words, next, ws).1 >= next,
    decreases ws.len(),
{
    if ws.len() > 0 {
        let (m, n) = train_step(words, next, ws[0]);
        lemma_train_words_grows(m, n, ws.drop_first());
    }
}

/// When the prefix of length `l + 1` of `t` reaches no trie node, no known
/// word is a prefix of `t` longer than `l`.
proof fn lemma_no_longer_match(
    nodes: Seq<TrieNode>,
    words: Map<Seq<char>, u16>,
    t: Seq<char>,
    l: int,
    m: int,
)
    requires
        words == trie_words(nodes),
        0 <= l < m <= t.len(),
        trie_lookup(nodes, t.take(l + 1)) is None,
    ensures
        longest_match(words, t, m) == longest_match(words, t, l),
    decreases m - l,
{
    lemma_lookup_none_extends(nodes, t, l + 1, m);
    assert(!words.contains_key(t.take(m)));
    if m > l + 1 {
        lemma_no_longer_match(nodes, words, t, l, m - 1);
    }
}


/// Training keeps what was known and ends knowing every trained word.
pub proof fn lemma_train_words_knows(words: Map<Seq<char>, u16>, next: int, ws: Seq<Seq<char>>)
    ensures
        forall|w: Seq<char>| #[trigger]
            words.contains_key(w) ==> train_words(words, next, ws).0.contains_key(w)
                && train_words(words, next, ws).0[w] == words[w],
        forall|k: int| 0 <= k < ws.len() ==> train_words(words, next, ws).0.contains_key(#[trigger] ws[k]),
    decreases ws.len(),
{
    if ws.len() > 0 {
        let (m, n) = train_step(words, next, ws[0]);
        lemma_train_words_knows(m, n, ws.drop_first());
        assert(train_words(words, next, ws) == train_words(m, n, ws.drop_first()));
        assert forall|w: Seq<char>| #[trigger] words.contains_key(w) implies m.contains_key(w)
            && m[w] == words[w] by {}
        assert(m.contains_key(ws[0]));
        assert forall|k: int| 0 <= k < ws.len() implies train_words(words, next, ws).0.contains_key(
            #[trigger] ws[k],
        ) by {
            if k > 0 {
                assert(ws[k] == ws.drop_first()[k - 1]);
            }
        }
    }
}

/// Training on words that are all known changes nothing.
pub proof fn lemma_train_words_known(words: Map<Seq<char>, u16>, next: int, ws: Seq<Seq<char>>)
    requires
        forall|k: int| 0 <= k < ws.len() ==> words.contains_key(#[trigger] ws[k]),
    ensures
        train_words(words, next, ws) == (words, next),
    decreases ws.len(),
{
    if ws.len() > 0 {
        assert(words.contains_key(ws[0]));
        assert forall|k: int| 0 <= k < ws.drop_first().len() implies words.contains_key(
            #[trigger] ws.drop_first()[k],
        ) by {
            assert(ws.drop_first()[k] == ws[k + 1]);
        }
        lemma_train_words_known(words, next, ws.drop_first());
    }
}

/// Training twice on the same corpus gives the vocabulary of training once.
pub proof fn lemma_train_idempotent(words: Map<Seq<char>, u16>, next: int, ws: Seq<Seq<char>>)
    ensures
        train_words(train_words(words, next, ws).0, train_words(words, next, ws).1, ws)
            == train_words(words, next, ws),
{
    let t = train_words(words, next, ws);
    lemma_train_words_knows(words, next, ws);
    lemma_train_words_known(t.0, t.1, ws);
}

/// A known word, encoded on its own, gives exactly its id.
pub proof fn lemma_encode_known_word(words: Map<Seq<char>, u16>, t: Seq<char>)
    requires
        t.len() > 0,
        words.contains_key(t),
    ensures
        encode_words(words, t) == seq![words[t]],
{
    assert(t.take(t.len() as int) =~= t);
    assert(t.skip(t.len() as int) =~= Seq::<char>::empty());
    assert(encode_words(words, t.skip(t.len() as int)) == Seq::<u16>::empty());
    assert(seq![words[t]] + Seq::<u16>::empty() =~= seq![words[t]]);
}

/// With an empty vocabulary every character is unknown.
pub proof fn lemma_encode_empty_vocabulary(t: Seq<char>)
    ensures
        encode_words(Map::empty(), t) == Seq::new(t.len(), |i: int| 0u16),
    decreases t.len(),
{
    if t.len() > 0 {
        lemma_longest_match_bounds(Map::empty(), t, t.len() as int);
        lemma_encode_empty_vocabulary(t.skip(1));
        assert(encode_words(Map::empty(), t) =~= Seq::new(t.len(), |i: int| 0u16));
    }
}

/// Every id the encoder emits is 0 (unknown) or the id of a known word.
pub proof fn lemma_encode_ids_known(words: Map<Seq<char>, u16>, t: Seq<char>)
    ensures
        forall|k: int|
            0 <= k < encode_words(words, t).len() ==> #[trigger] encode_words(words, t)[k] == 0
                || exists|w: Seq<char>| words.contains_key(w) && words[w] == encode_words(words, t)[k],
    decreases t.len(),
{
    if t.len() > 0 {
        let l = longest_match(words, t, t.len() as int);
        lemma_longest_match_bounds(words, t, t.len() as int);
        let rest = if l > 0 { t.skip(l) } else { t.skip(1) };
        lemma_encode_ids_known(words, rest);
        let r = encode_words(words, t);
        assert forall|k: int| 0 <= k < r.len() implies #[trigger] r[k] == 0 || exists|w: Seq<char>|
            words.contains_key(w) && words[w] == r[k] by {
            if k > 0 {
                assert(r[k] == encode_words(words, rest)[k - 1]);
            } else if l > 0 {
                assert(words.contains_key(t.take(l)) && words[t.take(l)] == r[0]);
            }
        }
    }
}


/// Every fragment of a word is non-empty.
pub proof fn lemma_word_fragments_nonempty(w: Seq<char>)
    ensures
        forall|i: int| 0 <= i < word_fragments(w).len() ==> #[trigger] word_fragments(w)[i].len() > 0,
{
    let (a, b, c) = (
        optional_fragment(decompose_spec(w).0),
        optional_fragment(decompose_spec(w).1),
        optional_fragment(decompose_spec(w).2),
    );
    assert forall|i: int| 0 <= i < word_fragments(w).len() implies #[trigger] word_fragments(w)[i].len()
        > 0 by {
        if i < a.len() {
            assert(word_fragments(w)[i] == a[i]);
        } else if i < a.len() + b.len() {
            assert(word_fragments(w)[i] == b[i - a.len()]);
        } else {
            assert(word_fragments(w)[i] == c[i - a.len() - b.len()]);
        }
    }
}

/// The fragments of each word are among the fragments of the corpus.
pub proof fn lemma_corpus_fragments_contain(ws: Seq<Seq<char>>, k: int, f: Seq<char>)
    requires
        0 <= k < ws.len(),
        word_fragments(ws[k]).contains(f),
    ensures
        corpus_fragments(ws).contains(f),
    decreases k,
{
    let here = word_fragments(ws[0]);
    let rest = corpus_fragments(ws.drop_first());
    if k == 0 {
        let i = choose|i: int| 0 <= i < here.len() && here[i] == f;
        assert((here + rest)[i] == f);
    } else {
        assert(ws.drop_first()[k - 1] == ws[k]);
        lemma_corpus_fragments_contain(ws.drop_first(), k - 1, f);
        let i = choose|i: int| 0 <= i < rest.len() && rest[i] == f;
        assert((here + rest)[here.len() + i] == f);
    }
}

/// After training on a corpus, every non-empty prefix, root and suffix of
/// its words is known and, encoded on its own, gives exactly its id.
pub proof fn lemma_trained_fragment_encodes(
    words: Map<Seq<char>, u16>,
    next: int,
    corpus: Seq<char>,
    k: int,
    f: Seq<char>,
)
    requires
        0 <= k < split_ws(corpus).len(),
        word_fragments(split_ws(corpus)[k]).contains(f),
    ensures
        train_words(words, next, corpus_fragments(split_ws(corpus))).0.contains_key(f),
        encode_words(train_words(words, next, corpus_fragments(split_ws(corpus))).0, f) == seq![
            train_words(words, next, corpus_fragments(split_ws(corpus))).0[f],
        ],
{
    let ws = split_ws(corpus);
    let fs = corpus_fragments(ws);
    let t = train_words(words, next, fs).0;
    lemma_word_fragments_nonempty(ws[k]);
    lemma_corpus_fragments_contain(ws, k, f);
    lemma_train_words_knows(words, next, fs);
    let j = choose|j: int| 0 <= j < fs.len() && fs[j] == f;
    assert(t.contains_key(fs[j]));
    let i = choose|i: int| 0 <= i < word_fragments(ws[k]).len() && word_fragments(ws[k])[i] == f;
    assert(f.len() > 0);
    lemma_encode_known_word(t, f);
}


/// Training on one sequence and then another is training on both in order.
pub proof fn lemma_train_words_append(
    words: Map<Seq<char>, u16>,
    next: int,
    a: Seq<Seq<char>>,
    b: Seq<Seq<char>>,
)
    ensures
        train_words(words, next, a + b) == train_words(
            train_words(words, next, a).0,
            train_words(words, next, a).1,
            b,
        ),
    decreases a.len(),
{
    if a.len() > 0 {
        let (m, n) = train_step(words, next, a[0]);
        assert((a + b)[0] == a[0]);
        assert((a + b).drop_first() =~= a.drop_first() + b);
        lemma_train_words_append(m, n, a.drop_first(), b);
    } else {
        assert(a + b =~= b);
    }
}

/// Training on an optional fragment: one training step when it is not
/// empty, nothing otherwise.
proof fn lemma_train_single(words: Map<Seq<char>, u16>, next: int, f: Seq<char>)
    ensures
        train_words(words, next, optional_fragment(f)) == (if f.len() > 0 {
            train_step(words, next, f)
        } else {
            (words, next)
        }),
{
    if f.len() > 0 {
        let st = train_step(words, next, f);
        assert(seq![f].drop_first() =~= Seq::<Seq<char>>::empty());
        assert(train_words(st.0, st.1, Seq::<Seq<char>>::empty()) == st);
        assert(optional_fragment(f)[0] == f);
    } else {
        assert(optional_fragment(f).len() == 0);
    }
}

/// The stages of training on one word's fragments and then on the rest.
proof fn lemma_train_word_stages(
    words: Map<Seq<char>, u16>,
    next: int,
    p: Seq<char>,
    r: Seq<char>,
    x: Seq<char>,
    rest: Seq<Seq<char>>,
)
    ensures
        ({
            let s1 = train_words(words, next, optional_fragment(p));
            let s2 = train_words(s1.0, s1.1, optional_fragment(r));
            let s3 = train_words(s2.0, s2.1, optional_fragment(x));
            &&& train_words(
                words,
                next,
                optional_fragment(p) + optional_fragment(r) + optional_fragment(x) + rest,
            ) == train_words(s3.0, s3.1, rest)
            &&& s1.1 <= s2.1 <= s3.1 <= train_words(s3.0, s3.1, rest).1
        }),
{
    let (a, b, c) = (optional_fragment(p), optional_fragment(r), optional_fragment(x));
    let s1 = train_words(words, next, a);
    let s2 = train_words(s1.0, s1.1, b);
    let s3 = train_words(s2.0, s2.1, c);
    lemma_train_words_append(words, next, a + b + c, rest);
    lemma_train_words_append(words, next, a + b, c);
    lemma_train_words_append(words, next, a, b);
    lemma_train_words_grows(s1.0, s1.1, b);
    lemma_train_words_grows(s2.0, s2.1, c);
    lemma_train_words_grows(s3.0, s3.1, rest);
}


/// Each character of a fragment of a word is a character of that word.
proof fn lemma_word_fragment_chars(w: Seq<char>, j: int, i: int)
    requires
        0 <= j < word_fragments(w).len(),
        0 <= i < word_fragments(w)[j].len(),
    ensures
        exists|m: int| 0 <= m < w.len() && w[m] == word_fragments(w)[j][i],
{
    let (p, r, x) = decompose_spec(w);
    lemma_decompose_reassembles(w);
    let (a, b, c) = (optional_fragment(p), optional_fragment(r), optional_fragment(x));
    let f = word_fragments(w);
    if j < a.len() {
        assert(f[j] == p);
        assert(w[i] == (p + r + x)[i]);
    } else if j < a.len() + b.len() {
        assert(f[j] == r);
        assert(w[p.len() + i] == (p + r + x)[p.len() + i]);
    } else {
        assert(f[j] == c[j - a.len() - b.len()]);
        assert(f[j] == x);
        assert(w[p.len() + r.len() + i] == (p + r + x)[p.len() + r.len() + i]);
    }
}

/// Each character of a fragment of a corpus is a character of one of its words.
proof fn lemma_corpus_fragment_chars(ws: Seq<Seq<char>>, j: int, i: int)
    requires
        0 <= j < corpus_fragments(ws).len(),
        0 <= i < corpus_fragments(ws)[j].len(),
    ensures
        exists|k: int, m: int| 0 <= k < ws.len() && 0 <= m < ws[k].len() && ws[k][m] == corpus_fragments(ws)[j][i],
    decreases ws.len(),
{
    let here = word_fragments(ws[0]);
    let rest = corpus_fragments(ws.drop_first());
    if j < here.len() {
        assert(corpus_fragments(ws)[j] == here[j]);
        lemma_word_fragment_chars(ws[0], j, i);
        let m = choose|m: int| 0 <= m < ws[0].len() && ws[0][m] == here[j][i];
        assert(0 <= 0 < ws.len() && 0 <= m < ws[0].len() && ws[0][m] == corpus_fragments(ws)[j][i]);
    } else {
        assert(corpus_fragments(ws)[j] == rest[j - here.len()]);
        lemma_corpus_fragment_chars(ws.drop_first(), j - here.len(), i);
        let (k, m) = choose|k: int, m: int|
            0 <= k < ws.drop_first().len() && 0 <= m < ws.drop_first()[k].len() && ws.drop_first()[k][m]
                == rest[j - here.len()][i];
        assert(ws[k + 1] == ws.drop_first()[k]);
        assert(0 <= k + 1 < ws.len() && 0 <= m < ws[k + 1].len() && ws[k + 1][m] == corpus_fragments(ws)[j][i]);
    }
}

/// Training splits at every whitespace character: no fragment trained from a
/// corpus holds tab, line feed, vertical tab, form feed, carriage return,
/// space, U+0085, U+00A0, U+1680, U+2000 to U+200A, U+2028, U+2029, U+202F,
/// U+205F or U+3000, and no trained fragment is empty.
pub proof fn lemma_trained_fragments_have_no_whitespace(corpus: Seq<char>)
    ensures
        forall|j: int|
            0 <= j < corpus_fragments(split_ws(corpus)).len() ==> #[trigger] corpus_fragments(
                split_ws(corpus),
            )[j].len() > 0,
        forall|j: int, i: int|
            #![trigger corpus_fragments(split_ws(corpus))[j][i]]
            0 <= j < corpus_fragments(split_ws(corpus)).len() && 0 <= i < corpus_fragments(
                split_ws(corpus),
            )[j].len() ==> {
                &&& !seq!['\t', '\n', '\u{b}', '\u{c}', '\r', ' ', '\u{85}', '\u{a0}', '\u{1680}'].contains(corpus_fragments(split_ws(corpus))[j][i])
                &&& !seq!['\u{2028}', '\u{2029}', '\u{202f}', '\u{205f}', '\u{3000}'].contains(corpus_fragments(split_ws(corpus))[j][i])
                &&& !('\u{2000}' <= corpus_fragments(split_ws(corpus))[j][i] <= '\u{200a}')
            },
{
    let ws = split_ws(corpus);
    let fs = corpus_fragments(ws);
    lemma_split_ws_pieces(corpus);
    assert forall|j: int| 0 <= j < fs.len() implies #[trigger] fs[j].len() > 0 by {
        lemma_corpus_fragments_nonempty(ws, j);
    }
    assert forall|j: int, i: int| 0 <= j < fs.len() && 0 <= i < fs[j].len() implies {
        &&& !seq!['\t', '\n', '\u{b}', '\u{c}', '\r', ' ', '\u{85}', '\u{a0}', '\u{1680}'].contains(#[trigger] fs[j][i])
        &&& !seq!['\u{2028}', '\u{2029}', '\u{202f}', '\u{205f}', '\u{3000}'].contains(fs[j][i])
        &&& !('\u{2000}' <= fs[j][i] <= '\u{200a}')
    } by {
        lemma_corpus_fragment_chars(ws, j, i);
        let (k, m) = choose|k: int, m: int| 0 <= k < ws.len() && 0 <= m < ws[k].len() && ws[k][m] == fs[j][i];
        assert(ws[k][m] == split_ws(corpus)[k][m]);
    }
}

/// Every fragment of a corpus is non-empty.
proof fn lemma_corpus_fragments_nonempty(ws: Seq<Seq<char>>, j: int)
    requires
        0 <= j < corpus_fragments(ws).len(),
    ensures
        corpus_fragments(ws)[j].len() > 0,
    decreases ws.len(),
{
    let here = word_fragments(ws[0]);
    if j < here.len() {
        lemma_word_fragments_nonempty(ws[0]);
        assert(corpus_fragments(ws)[j] == here[j]);
    } else {
        assert(corpus_fragments(ws)[j] == corpus_fragments(ws.drop_first())[j - here.len()]);
        lemma_corpus_fragments_nonempty(ws.drop_first(), j - here.len());
    }
}

} // verus!
