use spellcheck::count_table::{increment_word, CountTable};
use spellcheck::edits::{correct, edits1, edits2, known};

#[test]
fn edits_edits1_for_a() {
    let word = "a";
    let v = edits1(word);
    assert_eq!(78, v.len());
    let subset = vec!["b", "c", "d", "e", "f", "x", "y", "z", "ab", "ac", "ad", "ae", "af", "ax", "ay", "az", "ab", "ac", "ad", "ae", "af", "ax", "ay", "az"];
    for word in subset {
        assert!(v.contains(&word.to_owned()));
    }
}

#[test]
fn edits_edits1_for_e() {
    let word = "e";
    let v = edits1(word);
    assert_eq!(78, v.len());
    let subset = vec!["b", "c", "d", "f", "x", "y", "z", "eb", "ec", "ed", "ef", "ex", "ey", "ez", "eb", "ec", "ed", "ee", "ef", "ex", "ey", "ez"];
    for word in subset {
        assert!(v.contains(&word.to_owned()));
    }
}

#[test]
fn edits_edits1_for_aaaaa() {
    let word = "aaaaa";
    let v = edits1(word);
    assert_eq!(278, v.len());
    let subset = vec!["aaaa", "aaaaaa", "aaaab", "aacaa", "aaadaa", "faaaaa", "axaaaa", "aaaaya", "azaaa"];
    for word in subset {
        assert!(v.contains(&word.to_owned()));
    }
}

#[test]
fn edits_edits1_for_abc() {
    let word = "abc";
    let v = edits1(word);
    assert_eq!(182, v.len());
}

#[test]
fn edits_edits1_for_abcde() {
    let word = "abcde";
    let v = edits1(word);
    assert_eq!(286, v.len());
    let subset = vec!["abcd", "abde", "cbcde", "abcze", "abcdef", "yabcde", "bcde", "atcde", "bacde"];
    for word in subset {
        assert!(v.contains(&word.to_owned()));
    }
}

#[test]
fn edits_edits1_for_abcdefghijklmnopqrstuvwxyz() {
    let word = "abcdefghijklmnopqrstuvwxyz";
    let v = edits1(word);
    assert_eq!(1378, v.len());
    let subset = vec!["abcdefhijklmnopqrstuvwxyz", "abcdefghikjlmnopqrstuvwxyz", "abcdefghijklmnopqrstuvwxyza", "abcdeaghijklmnopqrstuvwxyz"];
    for word in subset {
        assert!(v.contains(&word.to_owned()));
    }
}

#[test]
fn edits_edits1_for_hello() {
    let word = "hello";
    let v = edits1(word);
    assert_eq!(284, v.len());
    let subset = vec!["helloh", "yello", "hlelo", "helol", "ahello", "helo", "jello"];
    for word in subset {
        assert!(v.contains(&word.to_owned()));
    }
}

#[test]
fn edits_edits1_for_something() {
    let word = "something";
    let v = edits1(word);
    assert_eq!(494, v.len());
    let subset = vec!["somthing", "somdthing", "aomething", "somehting"];
    for word in subset {
        assert!(v.contains(&word.to_owned()));
    }
}

#[test]
fn edits_edits1_for_anything() {
    let word = "anything";
    let v = edits1(word);
    assert_eq!(442, v.len());
    let subset = vec!["anzthing", "anyting", "antyhing", "manything"];
    for word in subset {
        assert!(v.contains(&word.to_owned()));
    }
}

#[test]
fn main_edits1_for_a() {
    let word = "a";
    let v = edits1(word);
    assert_eq!(78, v.len());
}

#[test]
fn main_edits1_for_e() {
    let word = "e";
    let v = edits1(word);
    assert_eq!(78, v.len());
}

#[test]
fn main_edits1_for_aaaaa() {
    let word = "aaaaa";
    let v = edits1(word);
    assert_eq!(278, v.len());
}

#[test]
fn main_edits1_for_abc() {
    let word = "abc";
    let v = edits1(word);
    assert_eq!(182, v.len());
}

#[test]
fn main_edits1_for_abcde() {
    let word = "abcde";
    let v = edits1(word);
    assert_eq!(286, v.len());
}

#[test]
fn main_edits1_for_abcdefghijklmnopqrstuvwxyz() {
    let word = "abcdefghijklmnopqrstuvwxyz";
    let v = edits1(word);
    assert_eq!(1378, v.len());
}

#[test]
fn main_edits1_for_hello() {
    let word = "hello";
    let v = edits1(word);
    assert_eq!(284, v.len());
}

#[test]
fn main_edits1_for_something() {
    let word = "something";
    let v = edits1(word);
    assert_eq!(494, v.len());
}

#[test]
fn main_edits1_for_anything() {
    let word = "anything";
    let v = edits1(word);
    assert_eq!(442, v.len());
}

fn fixture() -> CountTable {
    let mut h = CountTable::new();
    h.insert("two".to_owned(), 2);
    h.insert("three".to_owned(), 3);
    h.insert("why".to_owned(), 1);
    h.insert("where".to_owned(), 2);
    h.insert("when".to_owned(), 1);
    h.insert("how".to_owned(), 1);
    h.insert("who".to_owned(), 2);

    assert_eq!(None, h.get("none"));
    assert_eq!(Some(&2), h.get("two"));
    assert_eq!(Some(&3), h.get("three"));
    assert_eq!(7, h.len());
    h
}

#[test]
fn edits_test_no_suggestions_found() {
    let lib = fixture();
    assert_eq!(correct("asjkdghlaksjdghls", &lib), "-".to_owned());
}

#[test]
fn edits_test_chooses_more_frequent_alternative() {
    // "ho" is one edit from both "who" (count 2) and "how" (count 1).
    let lib = fixture();
    assert_eq!(correct("ho", &lib), "who".to_owned());
}

#[test]
fn edits_test_correct_suggestion() {
    let lib = fixture();
    assert_eq!(correct("wherf", &lib), "where".to_owned());
}

#[test]
fn correct_falls_back_to_two_edits() {
    let lib = fixture();
    // "thre" is one edit from "three"; "thr" is two edits away.
    assert_eq!(correct("thre", &lib), "three".to_owned());
    assert_eq!(correct("thr", &lib), "three".to_owned());
}

#[test]
fn correct_prefers_one_edit_over_more_frequent_two_edits() {
    let mut lib = CountTable::new();
    lib.insert("cat".to_owned(), 1);
    lib.insert("dog".to_owned(), 50);
    // "cot" is one edit from "cat", two from "dog".
    assert_eq!(correct("cot", &lib), "cat".to_owned());
}

#[test]
fn correct_breaks_ties_by_enumeration_order() {
    let mut lib = CountTable::new();
    lib.insert("bat".to_owned(), 4);
    lib.insert("cat".to_owned(), 4);
    // Both replace the first letter of "hat": "bat" comes first.
    assert_eq!(correct("hat", &lib), "bat".to_owned());
}

#[test]
fn correct_ignores_zero_counts() {
    let mut lib = CountTable::new();
    lib.insert("cat".to_owned(), 0);
    assert_eq!(correct("hat", &lib), "-".to_owned());
}

#[test]
fn edits1_of_empty_word_is_the_alphabet() {
    let v = edits1("");
    assert_eq!(26, v.len());
    assert_eq!("a", v[0]);
    assert_eq!("z", v[25]);
}

#[test]
fn edits1_order_and_distinctness() {
    let v = edits1("ab");
    // Deletions first, then the swap, then replacements, then insertions.
    assert_eq!("b", v[0]);
    assert_eq!("a", v[1]);
    assert_eq!("ba", v[2]);
    // Replacing "a" by itself gives the word back, which is new at that point.
    assert_eq!("ab", v[3]);
    assert_eq!("bb", v[4]);
    for i in 0..v.len() {
        for j in (i + 1)..v.len() {
            assert_ne!(v[i], v[j]);
        }
    }
}

#[test]
fn edits2_concatenates_edits1() {
    let e1s = vec!["a".to_owned(), "b".to_owned()];
    let v = edits2(&e1s);
    assert_eq!(156, v.len());
    assert_eq!(edits1("a"), v[..78].to_vec());
    assert_eq!(edits1("b"), v[78..].to_vec());
}

#[test]
fn known_keeps_known_words_in_order() {
    let lib = fixture();
    let words = vec!["who".to_owned(), "xyz".to_owned(), "two".to_owned(), "who".to_owned()];
    let k = known(&words, &lib);
    assert_eq!(
        vec![("who".to_owned(), 2), ("two".to_owned(), 2), ("who".to_owned(), 2)],
        k
    );
}

fn small_table() -> CountTable {
    let mut h = CountTable::new();
    h.insert("two".to_string(), 2);
    h.insert("three".to_string(), 3);

    assert_eq!(None, h.get("one"));
    assert_eq!(Some(&2), h.get("two"));
    assert_eq!(Some(&3), h.get("three"));
    assert_eq!(2, h.len());
    h
}

#[test]
fn insert_if_empty() {
    let mut h = CountTable::new();
    increment_word(&mut h, "one".to_string());

    assert_eq!(Some(&1), h.get("one"));
    assert_eq!(1, h.len());
}

#[test]
fn increments_if_present() {
    let mut under_test = small_table();
    let mut expected = small_table();

    increment_word(&mut under_test, "three".to_string());
    expected.insert("three".to_string(), 4);
    assert_eq!(expected, under_test);
}

#[test]
fn insert_if_absent() {
    let mut under_test = small_table();
    let mut expected = small_table();

    increment_word(&mut under_test, "one".to_string());
    expected.insert("one".to_string(), 1);
    assert_eq!(expected, under_test);
}

#[test]
fn table_equality_ignores_order() {
    let mut a = CountTable::new();
    a.insert("x".to_string(), 1);
    a.insert("y".to_string(), 2);
    let mut b = CountTable::new();
    b.insert("y".to_string(), 2);
    b.insert("x".to_string(), 1);
    assert_eq!(a, b);
    b.insert("x".to_string(), 3);
    assert_ne!(a, b);
}

#[test]
fn table_insert_returns_previous_count() {
    let mut h = small_table();
    assert_eq!(Some(2), h.insert("two".to_string(), 5));
    assert_eq!(None, h.insert("four".to_string(), 4));
    assert_eq!(Some(&5), h.get("two"));
    assert!(h.contains_key("four"));
    assert!(!h.contains_key("five"));
    assert_eq!(3, h.len());
}
