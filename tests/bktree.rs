use spellcheck::bktree::{build, BKTree, BuildError, Correction, Node};

fn small_fixture() -> BKTree {
    let root = Node::new("what".to_string(), 0, Vec::new());
    let mut bk = BKTree::new(root);
    bk.add("why");
    bk.add("where");
    bk.add("where");
    bk.add("when");
    bk.add("how");
    bk.add("who");
    bk.add("who");
    bk
}

fn vocabulary(words: &[&str]) -> Vec<String> {
    words.iter().map(|w| w.to_string()).collect()
}

#[test]
fn test_no_need_to_correct_word() {
    let bk = small_fixture();
    assert_eq!(bk.search("who", &1), "");
}

#[test]
fn bktree_test_no_suggestions_found() {
    let bk = small_fixture();
    assert_eq!(bk.search("asjkdghlaksjdghls", &1), "-");
}

#[test]
fn bktree_test_chooses_more_frequent_alternative() {
    // "ho" is one edit away from both "who" (twice inserted) and "how" (once).
    let bk = small_fixture();
    assert_eq!(bk.search("ho", &1), "who");
}

#[test]
fn bktree_test_correct_suggestion() {
    let bk = small_fixture();
    assert_eq!(bk.search("wherf", &1), "where");
}

#[test]
fn root_token_is_already_correct() {
    let bk = small_fixture();
    assert_eq!(bk.search("what", &0), "");
    assert_eq!(bk.search("what", &5), "");
}

#[test]
fn exact_match_wins_at_every_radius() {
    let bk = small_fixture();
    for r in 0..6usize {
        assert_eq!(bk.search("when", &r), "");
        assert_eq!(bk.query("when", r), Correction::AlreadyCorrect);
    }
}

#[test]
fn radius_zero_allows_exact_matches_only() {
    let bk = small_fixture();
    assert_eq!(bk.search("wha", &0), "-");
    assert_eq!(bk.query("wha", 0), Correction::NoSuggestion);
}

#[test]
fn closer_token_beats_more_frequent_one() {
    let mut bk = BKTree::new(Node::new("word".to_string(), 1, Vec::new()));
    for _ in 0..5 {
        bk.add("world");
    }
    // "wordl" is one edit from "word" and two from "world".
    assert_eq!(bk.search("wordl", &2), "word");
}

#[test]
fn larger_radius_reaches_farther_tokens() {
    let bk = small_fixture();
    assert_eq!(bk.search("whirs", &1), "-");
    assert_eq!(bk.search("whirs", &2), "where");
}

#[test]
fn huge_radius_does_not_overflow() {
    let bk = small_fixture();
    assert_eq!(bk.search("ho", &usize::MAX), "who");
}

#[test]
fn query_reports_each_outcome() {
    let bk = small_fixture();
    assert_eq!(bk.query("who", 1), Correction::AlreadyCorrect);
    assert_eq!(bk.query("wherf", 1), Correction::Suggestion("where".to_string()));
    assert_eq!(bk.query("ho", 1), Correction::Suggestion("who".to_string()));
    assert_eq!(bk.query("asjkdghlaksjdghls", 2), Correction::NoSuggestion);
}

#[test]
fn build_refuses_an_empty_vocabulary() {
    assert!(matches!(build(&Vec::new()), Err(BuildError::EmptyVocabulary)));
}

#[test]
fn build_end_to_end_scenario() {
    let words = vocabulary(&["what", "why", "where", "where", "when", "how", "who", "who"]);
    let bk = build(&words).unwrap();
    assert_eq!(bk.search("wherf", &1), "where");
    assert_eq!(bk.search("who", &1), "");
    assert_eq!(bk.search("asjkdghlaksjdghls", &1), "-");
    assert_eq!(bk.query("ho", 1), Correction::Suggestion("who".to_string()));
}

#[test]
fn build_counts_repeated_tokens() {
    // "bat" and "cat" are both one edit from "hat"; repetition decides.
    let bk = build(&vocabulary(&["cat", "bat", "bat", "cat", "cat"])).unwrap();
    assert_eq!(bk.search("hat", &1), "cat");
    let bk = build(&vocabulary(&["cat", "bat", "bat", "bat", "cat"])).unwrap();
    assert_eq!(bk.search("hat", &1), "bat");
}

#[test]
fn repeated_insertion_only_raises_frequency() {
    let mut bk = BKTree::new(Node::new("bat".to_string(), 1, Vec::new()));
    for _ in 0..3 {
        bk.add("cat");
    }
    // "cat" now has frequency 3 against "bat"'s 1.
    assert_eq!(bk.search("hat", &1), "cat");
    assert_eq!(bk.search("cat", &1), "");
    assert_eq!(bk.search("bat", &1), "");
}

#[test]
fn single_token_tree() {
    let bk = build(&vocabulary(&["hello"])).unwrap();
    assert_eq!(bk.search("hello", &0), "");
    assert_eq!(bk.search("hallo", &1), "hello");
    assert_eq!(bk.search("hxllx", &1), "-");
}

#[test]
fn empty_query_token() {
    let bk = build(&vocabulary(&["a", "bb", "ccc"])).unwrap();
    assert_eq!(bk.search("", &1), "a");
    assert_eq!(bk.search("", &0), "-");
}

#[test]
fn tree_from_a_hand_built_root() {
    // "book" -1-> "books" -2-> "boot", and "book" -2-> "back": every token
    // below an edge is that far from the edge's upper end.
    let boot = Node::new("boot".to_string(), 3, Vec::new());
    let books = Node::new("books".to_string(), 1, vec![(2, boot)]);
    let back = Node::new("back".to_string(), 1, Vec::new());
    let root = Node::new("book".to_string(), 2, vec![(1, books), (2, back)]);
    let mut bk = BKTree::new(root);
    assert_eq!(bk.search("boot", &0), "");
    // "books" and "boot" are both one edit away; "boot" is more frequent.
    assert_eq!(bk.search("boots", &1), "boot");
    assert_eq!(bk.search("bck", &1), "back");
    bk.add("boots");
    assert_eq!(bk.search("boots", &1), "");
    assert_eq!(bk.search("bootsy", &1), "boots");
}
