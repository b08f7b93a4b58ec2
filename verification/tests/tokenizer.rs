use clux::tokenizer::MorphologicalTokenizer;
use clux::ubc::UbcToken;

fn ids(v: Vec<UbcToken>) -> Vec<u16> {
    v.into_iter().map(|t| t.0).collect()
}

#[test]
fn new_tokenizer_is_empty() {
    let t = MorphologicalTokenizer::new();
    assert_eq!(t.next_id(), 1);
    assert_eq!(t.vocab_word(0), None);
    assert_eq!(t.vocab_word(1), None);
}

#[test]
fn training_numbers_new_words_in_order() {
    let mut t = MorphologicalTokenizer::new();
    t.train_morphology("the cat sat on the mat");
    assert_eq!(t.next_id(), 6);
    assert_eq!(t.vocab_word(1), Some("the".to_string()));
    assert_eq!(t.vocab_word(2), Some("cat".to_string()));
    assert_eq!(t.vocab_word(5), Some("mat".to_string()));
    assert_eq!(t.vocab_word(6), None);
}

#[test]
fn training_twice_changes_nothing() {
    let mut t = MorphologicalTokenizer::new();
    t.train_morphology("the cat sat");
    t.train_morphology("the cat sat");
    assert_eq!(t.next_id(), 4);
    assert_eq!(ids(t.encode("sat")), vec![3]);
}

#[test]
fn known_words_encode_to_their_ids_and_the_rest_to_zero() {
    let mut t = MorphologicalTokenizer::new();
    t.train_morphology("the cat sat on the mat");
    assert_eq!(ids(t.encode("the cat")), vec![1, 0, 2]);
    assert_eq!(ids(t.encode("thesat")), vec![1, 3]);
    assert_eq!(ids(t.encode("xyz")), vec![0, 0, 0]);
    assert_eq!(ids(t.encode("")), Vec::<u16>::new());
    assert_eq!(ids(t.encode("catalog")), vec![2, 0, 0, 0, 0]);
}

#[test]
fn longest_match_wins() {
    let mut t = MorphologicalTokenizer::new();
    t.train_morphology("in ins");
    assert_eq!(ids(t.encode("insx")), vec![2, 0]);
    assert_eq!(ids(t.encode("inx")), vec![1, 0]);
    assert_eq!(ids(t.encode("insid")), vec![2, 0, 0]);
}

#[test]
fn training_splits_words_into_fragments() {
    let mut t = MorphologicalTokenizer::new();
    t.train_morphology("unhappily");
    assert_eq!(t.next_id(), 4);
    assert_eq!(t.vocab_word(1), Some("un".to_string()));
    assert_eq!(t.vocab_word(2), Some("happi".to_string()));
    assert_eq!(t.vocab_word(3), Some("ly".to_string()));
    assert_eq!(t.vocab_word(4), None);
    assert!(t.is_root("happi") && !t.is_suffix("happi"));
    assert!(t.is_suffix("ly") && !t.is_root("ly"));
    assert!(!t.is_root("un") && !t.is_suffix("un"));
    assert!(!t.is_root("unhappily"));
    assert_eq!(ids(t.encode("unhappily")), vec![1, 2, 3]);
}

#[test]
fn fragments_are_shared_between_words() {
    let mut t = MorphologicalTokenizer::new();
    t.train_morphology("unhappily unkindly");
    assert_eq!(t.next_id(), 5);
    assert_eq!(t.vocab_word(4), Some("kind".to_string()));
    assert_eq!(ids(t.encode("unkindly")), vec![1, 4, 3]);
}

#[test]
fn tamil_suffix_is_its_own_fragment() {
    let mut t = MorphologicalTokenizer::new();
    t.train_morphology("வீடுகள்");
    assert_eq!(t.vocab_word(1), Some("வீடு".to_string()));
    assert_eq!(t.vocab_word(2), Some("கள்".to_string()));
    assert!(t.is_root("வீடு") && t.is_suffix("கள்"));
}

#[test]
fn a_prefix_can_also_be_a_root() {
    let mut t = MorphologicalTokenizer::new();
    t.train_morphology("in indeed");
    assert_eq!(t.next_id(), 3);
    assert_eq!(t.vocab_word(2), Some("deed".to_string()));
    assert!(t.is_root("in") && t.is_root("deed"));
}

#[test]
fn empty_vocabulary_is_all_unknown() {
    let t = MorphologicalTokenizer::new();
    assert_eq!(ids(t.encode("abc")), vec![0, 0, 0]);
}

#[test]
fn unicode_words_and_whitespace() {
    let mut t = MorphologicalTokenizer::new();
    t.train_morphology("வணக்கம்\u{3000}உலகம்\n\tவணக்கம்");
    assert_eq!(t.next_id(), 3);
    assert_eq!(t.vocab_word(2), Some("உலகம்".to_string()));
    assert_eq!(ids(t.encode("வணக்கம்")), vec![1]);
    assert_eq!(ids(t.encode("உலகம் வணக்கம்")), vec![2, 0, 1]);
}

#[test]
fn every_emitted_id_is_unknown_or_names_a_word() {
    let mut t = MorphologicalTokenizer::new();
    t.train_morphology("alpha beta gamma al");
    for id in ids(t.encode("alphabet gammaray al")) {
        assert!(id == 0 || t.vocab_word(id).is_some());
        assert!(id < t.next_id());
    }
    assert_eq!(ids(t.encode("alphabet")), vec![1, 0, 0, 0]);
}

#[test]
fn fresh_trie_node_is_empty() {
    let n = clux::trie::TrieNode::default();
    assert!(n.children.is_empty());
    assert_eq!(n.token_id, None);
    assert!(!n.is_root && !n.is_suffix);
}
