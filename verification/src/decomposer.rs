//! Morphological factorization of a word into prefix, root and suffix.

use vstd::prelude::*;
use vstd::string::{StrSliceExecFns, StringSliceAdditionalSpecFns};
use vstd::utf8::encode_utf8;

use crate::family::{
    find_entry, intern_entry, lemma_intern_entry_found, lemma_intern_entry_keeps, CompositeToken,
    FamilyGraph, NodeType,
};
use crate::text::str_chars;

verus! {

broadcast use {vstd::string::group_string_axioms, vstd::slice::group_slice_axioms};

/// The prefixes tried, in order.
pub open spec fn prefix_list() -> Seq<Seq<char>> {
    seq!["அ"@, "இ"@, "எ"@, "un"@, "re"@, "in"@, "dis"@, "pre"@]
}

/// The suffixes tried, in order.
pub open spec fn suffix_list() -> Seq<Seq<char>> {
    seq![
        "கள்"@,
        "gal"@,
        "இல்"@,
        "il"@,
        "ஆல்"@,
        "aal"@,
        "உக்கு"@,
        "ukku"@,
        "இன்"@,
        "in"@,
        "உடைய"@,
        "udaiya"@,
        "ing"@,
        "ed"@,
        "tion"@,
        "ly"@,
    ]
}

/// Length in bytes of the UTF-8 encoding of `s`.
pub open spec fn utf8_len(s: Seq<char>) -> nat {
    encode_utf8(s).len()
}

/// `p` may be split off the front of `w`: `w` starts with it and keeps more
/// than two bytes beyond it.
pub open spec fn strips_prefix(w: Seq<char>, p: Seq<char>) -> bool {
    &&& p.len() <= w.len()
    &&& w.take(p.len() as int) == p
    &&& utf8_len(w) > utf8_len(p) + 2
}

/// `x` may be split off the end of `w`: `w` ends with it and keeps more than
/// two bytes before it.
pub open spec fn strips_suffix(w: Seq<char>, x: Seq<char>) -> bool {
    &&& x.len() <= w.len()
    &&& w.skip(w.len() - x.len()) == x
    &&& utf8_len(w) > utf8_len(x) + 2
}

/// The first prefix of `ps`, from index `i` on, that may be split off `w`.
pub open spec fn find_prefix(ps: Seq<Seq<char>>, w: Seq<char>, i: int) -> Option<Seq<char>>
    decreases ps.len() - i,
{
    if i < 0 || i >= ps.len() {
        None
    } else if strips_prefix(w, ps[i]) {
        Some(ps[i])
    } else {
        find_prefix(ps, w, i + 1)
    }
}

/// The first suffix of `xs`, from index `i` on, that may be split off `w`.
pub open spec fn find_suffix(xs: Seq<Seq<char>>, w: Seq<char>, i: int) -> Option<Seq<char>>
    decreases xs.len() - i,
{
    if i < 0 || i >= xs.len() {
        None
    } else if strips_suffix(w, xs[i]) {
        Some(xs[i])
    } else {
        find_suffix(xs, w, i + 1)
    }
}

/// The (prefix, root, suffix) of `w`. Words of at most three characters are
/// all root; otherwise the first listed prefix that fits is split off the
/// front, then the first listed suffix that fits is split off what remains.
pub open spec fn decompose_spec(w: Seq<char>) -> (Seq<char>, Seq<char>, Seq<char>) {
    if w.len() <= 3 {
        (Seq::empty(), w, Seq::empty())
    } else {
        let (pre, rem) = match find_prefix(prefix_list(), w, 0) {
            Some(p) => (p, w.skip(p.len() as int)),
            None => (Seq::empty(), w),
        };
        match find_suffix(suffix_list(), rem, 0) {
            Some(x) => (pre, rem.take(rem.len() - x.len()), x),
            None => (pre, rem, Seq::empty()),
        }
    }
}

/// Whether the characters of `s` begin with those of `p`.
fn starts_with_chars(s: &str, p: &str) -> (r: bool)
    ensures
        r == (p@.len() <= s@.len() && s@.take(p@.len() as int) == p@),
{
    let x = str_chars(s);
    let y = str_chars(p);
    if y.len() > x.len() {
        return false;
    }
    let mut i: usize = 0;
    while i < y.len()
        invariant
            x@ == s@,
            y@ == p@,
            y@.len() <= x@.len(),
            i <= y@.len(),
            forall|j: int| 0 <= j < i ==> x@[j] == y@[j],
        decreases y@.len() - i,
    {
        if x[i] != y[i] {
            assert(s@.take(p@.len() as int)[i as int] != p@[i as int]);
            return false;
        }
        i = i + 1;
    }
    assert(s@.take(p@.len() as int) =~= p@);
    true
}

/// Whether the characters of `s` end with those of `p`.
fn ends_with_chars(s: &str, p: &str) -> (r: bool)
    ensures
        r == (p@.len() <= s@.len() && s@.skip(s@.len() - p@.len()) == p@),
{
    let x = str_chars(s);
    let y = str_chars(p);
    if y.len() > x.len() {
        return false;
    }
    let off = x.len() - y.len();
    let mut i: usize = 0;
    while i < y.len()
        invariant
            x@ == s@,
            y@ == p@,
            off + y@.len() == x@.len(),
            x@.len() == x.len(),
            i <= y@.len(),
            forall|j: int| 0 <= j < i ==> x@[off + j] == y@[j],
        decreases y@.len() - i,
    {
        if x[off + i] != y[i] {
            assert(s@.skip(s@.len() - p@.len())[i as int] != p@[i as int]);
            return false;
        }
        i = i + 1;
    }
    assert(s@.skip(s@.len() - p@.len()) =~= p@);
    true
}

pub struct Factorizer;

impl Factorizer {
    /// Decomposes a word into (prefix, root, suffix).
    pub fn decompose<'a>(word: &'a str) -> (r: (&'a str, &'a str, &'a str))
        ensures
            (r.0@, r.1@, r.2@) == decompose_spec(word@),
    {
        proof {
            reveal_strlit("");
        }
        let n = word.unicode_len();
        if n <= 3 {
            return ("", word, "");
        }
        let prefixes: [&'static str; 8] = ["அ", "இ", "எ", "un", "re", "in", "dis", "pre"];
        let suffixes: [&'static str; 16] = [
            "கள்",
            "gal",
            "இல்",
            "il",
            "ஆல்",
            "aal",
            "உக்கு",
            "ukku",
            "இன்",
            "in",
            "உடைய",
            "udaiya",
            "ing",
            "ed",
            "tion",
            "ly",
        ];
        let ghost ps = prefix_list();
        let ghost xs = suffix_list();
        assert(prefixes@.map_values(|p: &str| p@) =~= ps);
        assert(suffixes@.map_values(|p: &str| p@) =~= xs);
        let word_bytes = word.as_bytes().len();
        let mut prefix: &'a str = "";
        let mut remainder: &'a str = word;
        let mut i: usize = 0;
        loop
            invariant_except_break
                prefix@ == Seq::<char>::empty(),
                remainder@ == word@,
            invariant
                i <= 8,
                n == word@.len(),
                word_bytes == utf8_len(word@),
                prefixes@.map_values(|p: &str| p@) == ps,
                ps == prefix_list(),
                find_prefix(ps, word@, i as int) == find_prefix(ps, word@, 0),
            ensures
                prefix@ == (match find_prefix(ps, word@, 0) {
                    Some(p) => p,
                    None => Seq::<char>::empty(),
                }),
                remainder@ == (match find_prefix(ps, word@, 0) {
                    Some(p) => word@.skip(p.len() as int),
                    None => word@,
                }),
            decreases 8 - i,
        {
            if i >= 8 {
                break;
            }
            let p = prefixes[i];
            assert(p@ == ps[i as int]);
            if starts_with_chars(word, p) && word_bytes > p.as_bytes().len() && word_bytes - p.as_bytes().len() > 2 {
                let plen = p.unicode_len();
                prefix = p;
                remainder = word.substring_char(plen, n);
                assert(remainder@ =~= word@.skip(p@.len() as int));
                break;
            }
            i = i + 1;
        }
        let ghost rem0 = remainder@;
        let mut suffix: &'a str = "";
        let mut j: usize = 0;
        loop
            invariant_except_break
                suffix@ == Seq::<char>::empty(),
                remainder@ == rem0,
            invariant
                j <= 16,
                suffixes@.map_values(|p: &str| p@) == xs,
                xs == suffix_list(),
                find_suffix(xs, rem0, j as int) == find_suffix(xs, rem0, 0),
            ensures
                suffix@ == (match find_suffix(xs, rem0, 0) {
                    Some(x) => x,
                    None => Seq::<char>::empty(),
                }),
                remainder@ == (match find_suffix(xs, rem0, 0) {
                    Some(x) => rem0.take(rem0.len() - x.len()),
                    None => rem0,
                }),
            decreases 16 - j,
        {
            if j >= 16 {
                break;
            }
            let x = suffixes[j];
            assert(x@ == xs[j as int]);
            let rem_bytes = remainder.as_bytes().len();
            if ends_with_chars(remainder, x) && rem_bytes > x.as_bytes().len() && rem_bytes
                - x.as_bytes().len() > 2 {
                let rlen = remainder.unicode_len();
                let xlen = x.unicode_len();
                suffix = x;
                remainder = remainder.substring_char(0, rlen - xlen);
                assert(remainder@ =~= rem0.take(rem0.len() - x@.len()));
                break;
            }
            j = j + 1;
        }
        (prefix, remainder, suffix)
    }

    /// Interns the prefix (if any), the root and the suffix (if any) of
    /// `word` into `graph`, in that order, and returns their ids.
    pub fn intern_word(graph: &mut FamilyGraph, word: &str) -> (t: CompositeToken)
        ensures
            final(graph).entries() == intern_word_spec(old(graph).entries(), word@).0,
            t == intern_word_spec(old(graph).entries(), word@).1,
    {
        let (prefix, root, suffix) = Self::decompose(word);
        let prefix_id = if !prefix.is_empty() {
            Some(graph.insert_node(NodeType::Prefix, prefix))
        } else {
            None
        };
        let root_id = graph.insert_node(NodeType::Root, root);
        let suffix_id = if !suffix.is_empty() {
            Some(graph.insert_node(NodeType::Suffix, suffix))
        } else {
            None
        };
        CompositeToken { prefix_id, root_id, suffix_id }
    }
}

/// Interning one fragment, optional: an empty fragment is skipped.
pub open spec fn intern_optional(es: Seq<(NodeType, Seq<char>)>, kind: NodeType, f: Seq<char>) -> (
    Seq<(NodeType, Seq<char>)>,
    Option<usize>,
) {
    if f.len() == 0 {
        (es, None)
    } else {
        let r = intern_entry(es, (kind, f));
        (r.0, Some(r.1 as usize))
    }
}

/// The table and token after interning `w`: its prefix (if any), then its
/// root, then its suffix (if any).
pub open spec fn intern_word_spec(es: Seq<(NodeType, Seq<char>)>, w: Seq<char>) -> (
    Seq<(NodeType, Seq<char>)>,
    CompositeToken,
) {
    let (p, r, x) = decompose_spec(w);
    let (es1, pid) = intern_optional(es, NodeType::Prefix, p);
    let r2 = intern_entry(es1, (NodeType::Root, r));
    let (es3, sid) = intern_optional(r2.0, NodeType::Suffix, x);
    (es3, CompositeToken { prefix_id: pid, root_id: r2.1 as usize, suffix_id: sid })
}

/// Splitting a word loses nothing: prefix, root and suffix together spell it.
pub proof fn lemma_decompose_reassembles(w: Seq<char>)
    ensures
        decompose_spec(w).0 + decompose_spec(w).1 + decompose_spec(w).2 == w,
{
    if w.len() > 3 {
        lemma_find_prefix(prefix_list(), w, 0);
        let (pre, rem) = match find_prefix(prefix_list(), w, 0) {
            Some(p) => (p, w.skip(p.len() as int)),
            None => (Seq::<char>::empty(), w),
        };
        assert(pre + rem =~= w);
        lemma_find_suffix(suffix_list(), rem, 0);
        match find_suffix(suffix_list(), rem, 0) {
            Some(x) => {
                assert(rem.take(rem.len() - x.len()) + x =~= rem);
                assert(pre + rem.take(rem.len() - x.len()) + x =~= w);
            },
            None => {
                assert(pre + rem + Seq::<char>::empty() =~= w);
            },
        }
    } else {
        assert(Seq::<char>::empty() + w + Seq::<char>::empty() =~= w);
    }
}

proof fn lemma_find_prefix(ps: Seq<Seq<char>>, w: Seq<char>, i: int)
    ensures
        find_prefix(ps, w, i) matches Some(p) ==> strips_prefix(w, p) && ps.contains(p),
    decreases ps.len() - i,
{
    if 0 <= i < ps.len() && !strips_prefix(w, ps[i]) {
        lemma_find_prefix(ps, w, i + 1);
    }
}

proof fn lemma_find_suffix(xs: Seq<Seq<char>>, w: Seq<char>, i: int)
    ensures
        find_suffix(xs, w, i) matches Some(x) ==> strips_suffix(w, x) && xs.contains(x),
    decreases xs.len() - i,
{
    if 0 <= i < xs.len() && !strips_suffix(w, xs[i]) {
        lemma_find_suffix(xs, w, i + 1);
    }
}


proof fn lemma_intern_optional_keeps(
    es: Seq<(NodeType, Seq<char>)>,
    kind: NodeType,
    f: Seq<char>,
    e: (NodeType, Seq<char>),
    i: int,
)
    requires
        find_entry(es, e, 0) == Some(i),
    ensures
        find_entry(intern_optional(es, kind, f).0, e, 0) == Some(i),
{
    if f.len() > 0 {
        lemma_intern_entry_keeps(es, (kind, f), e, i);
    }
}

proof fn lemma_intern_optional_again(es: Seq<(NodeType, Seq<char>)>, kind: NodeType, f: Seq<char>)
    ensures
        intern_optional(intern_optional(es, kind, f).0, kind, f) == intern_optional(es, kind, f),
{
    if f.len() > 0 {
        lemma_intern_entry_found(es, (kind, f));
    }
}

/// Interning a word a second time adds nothing to the graph and gives back
/// the same token.
pub proof fn lemma_intern_word_idempotent(es: Seq<(NodeType, Seq<char>)>, w: Seq<char>)
    ensures
        intern_word_spec(intern_word_spec(es, w).0, w) == intern_word_spec(es, w),
{
    let (p, r, x) = decompose_spec(w);
    let o1 = intern_optional(es, NodeType::Prefix, p);
    let r2 = intern_entry(o1.0, (NodeType::Root, r));
    let o3 = intern_optional(r2.0, NodeType::Suffix, x);
    let big = o3.0;
    if p.len() > 0 {
        let e = (NodeType::Prefix, p);
        lemma_intern_entry_found(es, e);
        lemma_intern_entry_keeps(o1.0, (NodeType::Root, r), e, intern_entry(es, e).1);
        lemma_intern_optional_keeps(r2.0, NodeType::Suffix, x, e, intern_entry(es, e).1);
        assert(intern_optional(big, NodeType::Prefix, p) == (big, o1.1));
    } else {
        assert(intern_optional(big, NodeType::Prefix, p) == (big, o1.1));
    }
    lemma_intern_entry_found(o1.0, (NodeType::Root, r));
    lemma_intern_optional_keeps(r2.0, NodeType::Suffix, x, (NodeType::Root, r), r2.1);
    assert(intern_entry(big, (NodeType::Root, r)) == (big, r2.1));
    lemma_intern_optional_again(r2.0, NodeType::Suffix, x);
}


/// Words of at most three characters are all root, however many bytes they
/// take. A part is split off only from a longer word: a prefix only when it
/// is a listed prefix that the word starts with, a suffix only when it is a
/// listed suffix that the word ends with, and the root is never empty.
pub proof fn lemma_decompose_parts(w: Seq<char>)
    ensures
        w.len() <= 3 ==> decompose_spec(w) == (Seq::<char>::empty(), w, Seq::<char>::empty()),
        decompose_spec(w).0.len() > 0 ==> {
            &&& w.len() > 3
            &&& prefix_list().contains(decompose_spec(w).0)
            &&& w.take(decompose_spec(w).0.len() as int) == decompose_spec(w).0
        },
        decompose_spec(w).2.len() > 0 ==> {
            &&& w.len() > 3
            &&& suffix_list().contains(decompose_spec(w).2)
            &&& w.skip(w.len() - decompose_spec(w).2.len()) == decompose_spec(w).2
        },
        w.len() > 0 ==> decompose_spec(w).1.len() > 0,
{
    if w.len() > 3 {
        lemma_find_prefix(prefix_list(), w, 0);
        let (pre, rem) = match find_prefix(prefix_list(), w, 0) {
            Some(p) => (p, w.skip(p.len() as int)),
            None => (Seq::<char>::empty(), w),
        };
        assert(pre + rem =~= w);
        if let Some(p) = find_prefix(prefix_list(), w, 0) {
            if rem.len() == 0 {
                assert(w.take(p.len() as int) =~= w);
            }
        }
        lemma_find_suffix(suffix_list(), rem, 0);
        if let Some(x) = find_suffix(suffix_list(), rem, 0) {
            let root = rem.take(rem.len() - x.len());
            assert(w.skip(w.len() - x.len()) =~= rem.skip(rem.len() - x.len()));
            if root.len() == 0 {
                assert(rem.skip(0) =~= rem);
            }
        }
    }
}

} // verus!
