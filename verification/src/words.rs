//! Splitting text into whitespace-separated words.

use vstd::prelude::*;

verus! {

/// Whether `c` has the Unicode `White_Space` property (the characters that
/// `char::is_whitespace` accepts).
pub open spec fn is_unicode_whitespace(c: char) -> bool {
    ||| ('\u{9}' <= c && c <= '\u{d}')
    ||| c == ' '
    ||| c == '\u{85}'
    ||| c == '\u{a0}'
    ||| c == '\u{1680}'
    ||| ('\u{2000}' <= c && c <= '\u{200a}')
    ||| c == '\u{2028}'
    ||| c == '\u{2029}'
    ||| c == '\u{202f}'
    ||| c == '\u{205f}'
    ||| c == '\u{3000}'
}

/// Whether `c` is Unicode whitespace.
pub fn is_whitespace(c: char) -> (b: bool)
    ensures
        b == is_unicode_whitespace(c),
{
    ('\u{9}' <= c && c <= '\u{d}') || c == ' ' || c == '\u{85}' || c == '\u{a0}' || c == '\u{1680}'
        || ('\u{2000}' <= c && c <= '\u{200a}') || c == '\u{2028}' || c == '\u{2029}' || c
        == '\u{202f}' || c == '\u{205f}' || c == '\u{3000}'
}

/// Number of characters before the first whitespace of `s`.
pub open spec fn word_len(s: Seq<char>) -> nat
    decreases s.len(),
{
    if s.len() == 0 || is_unicode_whitespace(s[0]) {
        0
    } else {
        1 + word_len(s.drop_first())
    }
}

pub proof fn lemma_word_len_bounds(s: Seq<char>)
    ensures
        word_len(s) <= s.len(),
        forall|j: int| 0 <= j < word_len(s) ==> !is_unicode_whitespace(#[trigger] s[j]),
        word_len(s) < s.len() ==> is_unicode_whitespace(s[word_len(s) as int]),
    decreases s.len(),
{
    if s.len() > 0 && !is_unicode_whitespace(s[0]) {
        lemma_word_len_bounds(s.drop_first());
        assert forall|j: int| 0 <= j < word_len(s) implies !is_unicode_whitespace(#[trigger] s[j]) by {
            if j > 0 {
                assert(s[j] == s.drop_first()[j - 1]);
            }
        }
    }
}

/// The maximal runs of non-whitespace characters of `s`, in order (what
/// `str::split_whitespace` yields).
pub open spec fn split_ws(s: Seq<char>) -> Seq<Seq<char>>
    decreases s.len(),
{
    if s.len() == 0 {
        seq![]
    } else if is_unicode_whitespace(s[0]) {
        split_ws(s.drop_first())
    } else {
        proof {
            lemma_word_len_bounds(s);
        }
        seq![s.take(word_len(s) as int)] + split_ws(s.skip(word_len(s) as int))
    }
}

/// A run `[i, e)` of non-whitespace characters ending at whitespace or at
/// the end has length `word_len` of the text from `i`.
proof fn lemma_word_len_run(s: Seq<char>, i: int, e: int)
    requires
        0 <= i <= e <= s.len(),
        forall|j: int| i <= j < e ==> !is_unicode_whitespace(#[trigger] s[j]),
        e == s.len() || is_unicode_whitespace(s[e]),
    ensures
        word_len(s.skip(i)) == e - i,
    decreases e - i,
{
    if i < e {
        lemma_word_len_run(s, i + 1, e);
        assert(s.skip(i).drop_first() =~= s.skip(i + 1));
    } else if e < s.len() {
        assert(s.skip(i)[0] == s[e]);
    }
}

/// The spans `[start, end)` of the whitespace-separated words of `chars`.
pub fn split_whitespace_spans(chars: &Vec<char>) -> (spans: Vec<(usize, usize)>)
    ensures
        spans@.len() == split_ws(chars@).len(),
        forall|k: int|
            #![trigger spans@[k]]
            0 <= k < spans@.len() ==> {
                &&& spans@[k].0 <= spans@[k].1 <= chars@.len()
                &&& chars@.subrange(spans@[k].0 as int, spans@[k].1 as int) == split_ws(chars@)[k]
            },
{
    let n = chars.len();
    let ghost s = chars@;
    let mut spans: Vec<(usize, usize)> = Vec::new();
    let ghost mut done: Seq<Seq<char>> = seq![];
    let mut i: usize = 0;
    assert(s.skip(0) =~= s);
    while i < n
        invariant
            n == s.len(),
            s == chars@,
            i <= n,
            done + split_ws(s.skip(i as int)) == split_ws(s),
            spans@.len() == done.len(),
            forall|k: int|
                #![trigger spans@[k]]
                0 <= k < spans@.len() ==> {
                    &&& spans@[k].0 <= spans@[k].1 <= s.len()
                    &&& s.subrange(spans@[k].0 as int, spans@[k].1 as int) == done[k]
                },
        decreases n - i,
    {
        if is_whitespace(chars[i]) {
            assert(s.skip(i as int).drop_first() =~= s.skip(i + 1));
            i = i + 1;
        } else {
            let mut e = i + 1;
            while e < n && !is_whitespace(chars[e])
                invariant
                    n == s.len(),
                    s == chars@,
                    i < e <= n,
                    forall|j: int| i <= j < e ==> !is_unicode_whitespace(#[trigger] s[j]),
                decreases n - e,
            {
                e = e + 1;
            }
            proof {
                lemma_word_len_run(s, i as int, e as int);
                let rest = s.skip(i as int);
                assert(rest.take(e - i) =~= s.subrange(i as int, e as int));
                assert(rest.skip(e - i) =~= s.skip(e as int));
                assert(split_ws(rest) == seq![s.subrange(i as int, e as int)] + split_ws(s.skip(e as int)));
                assert(done.push(s.subrange(i as int, e as int)) + split_ws(s.skip(e as int)) =~= done
                    + split_ws(rest));
                done = done.push(s.subrange(i as int, e as int));
            }
            spans.push((i, e));
            i = e;
        }
    }
    assert(s.skip(n as int) =~= Seq::<char>::empty());
    assert(done =~= split_ws(s));
    spans
}



/// Every piece of a split is non-empty and holds no whitespace character:
/// none of tab, line feed, vertical tab, form feed, carriage return, space,
/// U+0085, U+00A0, U+1680, U+2000 to U+200A, U+2028, U+2029, U+202F, U+205F
/// or U+3000.
pub proof fn lemma_split_ws_pieces(s: Seq<char>)
    ensures
        forall|k: int| 0 <= k < split_ws(s).len() ==> #[trigger] split_ws(s)[k].len() > 0,
        forall|k: int, i: int|
            #![trigger split_ws(s)[k][i]]
            0 <= k < split_ws(s).len() && 0 <= i < split_ws(s)[k].len() ==> {
                &&& !seq!['\t', '\n', '\u{b}', '\u{c}', '\r', ' ', '\u{85}', '\u{a0}', '\u{1680}'].contains(split_ws(s)[k][i])
                &&& !seq!['\u{2028}', '\u{2029}', '\u{202f}', '\u{205f}', '\u{3000}'].contains(split_ws(s)[k][i])
                &&& !('\u{2000}' <= split_ws(s)[k][i] <= '\u{200a}')
            },
    decreases s.len(),
{
    if s.len() > 0 {
        if is_unicode_whitespace(s[0]) {
            lemma_split_ws_pieces(s.drop_first());
            assert(split_ws(s) == split_ws(s.drop_first()));
        } else {
            lemma_word_len_bounds(s);
            let w = s.take(word_len(s) as int);
            let rest = s.skip(word_len(s) as int);
            lemma_split_ws_pieces(rest);
            assert(word_len(s) >= 1);
            assert(split_ws(s) == seq![w] + split_ws(rest));
            assert forall|k: int, i: int|
                0 <= k < split_ws(s).len() && 0 <= i < split_ws(s)[k].len() implies {
                &&& !seq!['\t', '\n', '\u{b}', '\u{c}', '\r', ' ', '\u{85}', '\u{a0}', '\u{1680}'].contains(#[trigger] split_ws(s)[k][i])
                &&& !seq!['\u{2028}', '\u{2029}', '\u{202f}', '\u{205f}', '\u{3000}'].contains(split_ws(s)[k][i])
                &&& !('\u{2000}' <= split_ws(s)[k][i] <= '\u{200a}')
            } by {
                if k == 0 {
                    let c = w[i];
                    assert(c == s[i]);
                    assert(!is_unicode_whitespace(c));
                    let l1 = seq!['\t', '\n', '\u{b}', '\u{c}', '\r', ' ', '\u{85}', '\u{a0}', '\u{1680}'];
                    let l2 = seq!['\u{2028}', '\u{2029}', '\u{202f}', '\u{205f}', '\u{3000}'];
                    if l1.contains(c) {
                        let j = choose|j: int| 0 <= j < l1.len() && l1[j] == c;
                        assert(false);
                    }
                    if l2.contains(c) {
                        let j = choose|j: int| 0 <= j < l2.len() && l2[j] == c;
                        assert(false);
                    }
                } else {
                    assert(split_ws(s)[k] == split_ws(rest)[k - 1]);
                }
            }
            assert forall|k: int| 0 <= k < split_ws(s).len() implies #[trigger] split_ws(s)[k].len() > 0 by {
                if k > 0 {
                    assert(split_ws(s)[k] == split_ws(rest)[k - 1]);
                }
            }
        }
    }
}

} // verus!
