use clux::decomposer::Factorizer;
use clux::family::{CompositeToken, FamilyGraph};

#[test]
fn short_words_are_all_root() {
    assert_eq!(Factorizer::decompose("cat"), ("", "cat", ""));
    assert_eq!(Factorizer::decompose("inn"), ("", "inn", ""));
    assert_eq!(Factorizer::decompose(""), ("", "", ""));
}

#[test]
fn prefix_and_suffix_are_split_off() {
    assert_eq!(Factorizer::decompose("unhappily"), ("un", "happi", "ly"));
    assert_eq!(Factorizer::decompose("rewriting"), ("re", "writ", "ing"));
}

#[test]
fn more_than_two_bytes_must_remain() {
    assert_eq!(Factorizer::decompose("indeed"), ("in", "deed", ""));
    assert_eq!(Factorizer::decompose("redo"), ("", "redo", ""));
}

#[test]
fn tamil_suffix() {
    assert_eq!(Factorizer::decompose("வீடுகள்"), ("", "வீடு", "கள்"));
}

#[test]
fn interning_shares_fragments() {
    let mut g = FamilyGraph::new();
    assert_eq!(g.len(), 0);
    let a = Factorizer::intern_word(&mut g, "unhappily");
    assert_eq!(a, CompositeToken { prefix_id: Some(0), root_id: 1, suffix_id: Some(2) });
    let b = Factorizer::intern_word(&mut g, "cat");
    assert_eq!(b, CompositeToken { prefix_id: None, root_id: 3, suffix_id: None });
    let c = Factorizer::intern_word(&mut g, "unkindly");
    assert_eq!(c, CompositeToken { prefix_id: Some(0), root_id: 4, suffix_id: Some(2) });
    assert_eq!(g.len(), 5);
}

#[test]
fn interning_twice_is_interning_once() {
    let mut g = FamilyGraph::new();
    let a = Factorizer::intern_word(&mut g, "rewriting");
    let n = g.len();
    let b = Factorizer::intern_word(&mut g, "rewriting");
    assert_eq!(a, b);
    assert_eq!(g.len(), n);
}

#[test]
fn role_is_part_of_a_fragment() {
    let mut g = FamilyGraph::new();
    let a = Factorizer::intern_word(&mut g, "indeed");
    let b = Factorizer::intern_word(&mut g, "in");
    assert_eq!(a.prefix_id, Some(0));
    assert_eq!(b.root_id, 2);
}

#[test]
fn parts_spell_the_word() {
    for w in ["unhappily", "rewriting", "indeed", "வீடுகள்", "cat", "preheating", "distance", "x"] {
        let (p, r, s) = Factorizer::decompose(w);
        assert_eq!(format!("{}{}{}", p, r, s), w);
    }
}
