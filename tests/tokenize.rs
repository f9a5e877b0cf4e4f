use spellcheck::tokenize::{split_words, tokenize};

fn assert_read(expected: &[&str], input: &str) {
    let v = tokenize(input);
    assert_eq!(expected.len(), v.len());
    for i in 0..(v.len()) {
        assert_eq!(expected[i], v[i]);
    }
}

#[test]
fn input_reads_three_words_on_separate_lines() {
    assert_read(&["hi", "hello", "hey"], "'...''hi...\nhello\nhey\n");
}

#[test]
fn input_reads_three_words_on_same_line() {
    assert_read(&["hi", "hello", "hey"], "hi hello hey\n");
}

#[test]
fn input_trims_beginning_and_trailing_apostrophes_and_periods() {
    assert_read(&["hi", "hello", "hey"], "'...''hi...\n''...'..'hello...'\n'..'..'.hey\n");
}

#[test]
fn input_handles_acronyms() {
    assert_read(
        &["i", "am", "a", "student", "in", "the", "e.e.c.s", "department"],
        "I am a student \nin the E.E.C.S. department!!\n",
    );
}

#[test]
fn input_splits_on_invalid_chars() {
    assert_read(
        &["hi", "my", "name", "is", "kevin", "i", "don't", "like", "the", "one"],
        "hi8 my name&is Kevin. I don't like the # 3.14159. One=1.",
    )
}

#[test]
fn input_splits_on_invalid_chars_multi_line() {
    assert_read(
        &["hi", "my", "name", "is", "kevin", "i", "don't", "like", "the", "one"],
        "hi8 my\nname&is Kevin!!!!\n I don't\nlike the # 3. One=1.\n%$#^$^",
    )
}

#[test]
fn hyphens_split_words() {
    assert_read(&["good", "looking"], "Good-looking");
}

#[test]
fn text_without_words() {
    assert_read(&[], "");
    assert_read(&[], "123 ... '' -- 4.5");
}

#[test]
fn non_ascii_letters_stay_in_words() {
    assert_read(&["café", "déjà", "vu"], "Café DÉJÀ-vu.");
}

#[test]
fn split_words_keeps_case_as_given() {
    // The text is taken as already lower-cased; only separators and trims apply.
    let v = split_words("Hi, 'Bob'... it's 9am");
    assert_eq!(vec!["Hi", "Bob", "it's", "am"], v);
}
