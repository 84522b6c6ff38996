use bbow::Bbow;

#[test]
fn extend_should_create_bbow() {
    let test_str = "one twO two three";
    let my_bbow = Bbow::new().extend_from_text(test_str);

    assert!(!my_bbow.is_empty());
    assert_eq!(3, my_bbow.len());
    assert_eq!(1, my_bbow.match_count("one"));
    assert_eq!(2, my_bbow.match_count("two"));
    assert_eq!(1, my_bbow.match_count("three"));
}

#[test]
fn apostrophes_reject_words() {
    let bbow = Bbow::new().extend_from_text("It ain't over untïl it ain't, over.");
    assert_eq!(vec!["it", "over", "untïl"], bbow.words());
    assert_eq!(2, bbow.match_count("it"));
    assert_eq!(2, bbow.match_count("over"));
    assert_eq!(1, bbow.match_count("untïl"));
    assert_eq!(0, bbow.match_count("ain't"));
    assert_eq!(0, bbow.match_count("ain"));
    assert_eq!(3, bbow.len());
    assert_eq!(5, bbow.count());
}

#[test]
fn hello_world() {
    let bbow = Bbow::new().extend_from_text("Hello world.");
    assert_eq!(2, bbow.len());
    assert_eq!(1, bbow.match_count("hello"));
    assert_eq!(1, bbow.match_count("world"));
    assert_eq!(0, bbow.match_count("Hello"));
    assert_eq!(vec!["hello", "world"], bbow.words());
}

#[test]
fn internal_hyphen_rejects_word() {
    let bbow = Bbow::new().extend_from_text("b b b-banana b");
    assert_eq!(3, bbow.match_count("b"));
    assert_eq!(0, bbow.match_count("banana"));
    assert_eq!(0, bbow.match_count("b-banana"));
    assert_eq!(1, bbow.len());
    assert_eq!(3, bbow.count());
}

#[test]
fn cant_stop_this() {
    let bbow = Bbow::new().extend_from_text("Can't stop this! Stop!");
    assert_eq!(3, bbow.count());
    assert_eq!(2, bbow.len());
    assert_eq!(2, bbow.match_count("stop"));
    assert_eq!(1, bbow.match_count("this"));
    assert_eq!(0, bbow.match_count("can't"));
    assert_eq!(vec!["stop", "this"], bbow.words());
}

#[test]
fn empty_and_punctuation_only_texts_add_nothing() {
    let bbow = Bbow::new().extend_from_text("");
    assert!(bbow.is_empty());
    assert_eq!(0, bbow.count());
    let bbow = bbow.extend_from_text("... !!! ---");
    assert!(bbow.is_empty());
    assert_eq!(0, bbow.len());
    assert_eq!(0, bbow.count());
    assert!(bbow.words().is_empty());
    let bbow = bbow.extend_from_text(" \t\n ");
    assert!(bbow.is_empty());
}

#[test]
fn new_bag_is_empty() {
    let bbow = Bbow::new();
    assert!(bbow.is_empty());
    assert_eq!(0, bbow.len());
    assert_eq!(0, bbow.count());
    assert_eq!(0, bbow.match_count("word"));
}

#[test]
fn count_is_number_of_accepted_tokens() {
    let bbow = Bbow::new().extend_from_text("a a-b (c) d2 e 'f' 42 ...");
    assert_eq!(5, bbow.count());
    assert_eq!(vec!["a", "c", "d", "e", "f"], bbow.words());
}

#[test]
fn len_equals_count_for_distinct_words() {
    let bbow = Bbow::new().extend_from_text("one two three");
    assert_eq!(bbow.len(), bbow.count());
    let bbow = bbow.extend_from_text("two");
    assert!(bbow.len() < bbow.count());
    assert_eq!(3, bbow.len());
    assert_eq!(4, bbow.count());
}

#[test]
fn case_variants_share_a_key() {
    let bbow = Bbow::new()
        .extend_from_text("word")
        .extend_from_text("WORD")
        .extend_from_text("WoRd");
    assert_eq!(1, bbow.len());
    assert_eq!(3, bbow.match_count("word"));
    assert_eq!(0, bbow.match_count("WORD"));
}

#[test]
fn non_ascii_uppercase_is_lowercased() {
    let bbow = Bbow::new().extend_from_text("ÜBER über Straße");
    assert_eq!(2, bbow.match_count("über"));
    assert_eq!(1, bbow.match_count("straße"));
    assert_eq!(vec!["straße", "über"], bbow.words());
}

#[test]
fn words_come_in_lexicographic_order() {
    let bbow = Bbow::new().extend_from_text("pear apple fig apple banana ab a");
    assert_eq!(vec!["a", "ab", "apple", "banana", "fig", "pear"], bbow.words());
    assert_eq!(2, bbow.match_count("apple"));
}

#[test]
fn chaining_matches_joined_text() {
    let chained = Bbow::new()
        .extend_from_text("The cat, the hat.")
        .extend_from_text("A cat sat!");
    let joined = Bbow::new().extend_from_text("The cat, the hat. A cat sat!");
    assert_eq!(chained.words(), joined.words());
    for w in joined.words() {
        assert_eq!(chained.match_count(w), joined.match_count(w));
    }
    assert_eq!(chained.count(), joined.count());
    assert_eq!(2, joined.match_count("the"));
    assert_eq!(2, joined.match_count("cat"));
}

#[test]
fn unicode_whitespace_separates_tokens() {
    let bbow = Bbow::new().extend_from_text("one\ttwo\nthree\u{3000}four\u{a0}five\r\nsix");
    assert_eq!(6, bbow.len());
    assert_eq!(vec!["five", "four", "one", "six", "three", "two"], bbow.words());
}

#[test]
fn trimming_keeps_inner_letters_only() {
    let bbow = Bbow::new().extend_from_text("--Quoted-- «guillemets» (x) 1st 2");
    assert_eq!(vec!["guillemets", "quoted", "st", "x"], bbow.words());
    assert_eq!(4, bbow.count());
}

#[test]
fn counts_accumulate_across_texts() {
    let a = String::from("red green");
    let b = String::from("Green blue green");
    let bbow = Bbow::new().extend_from_text(&a).extend_from_text(&b);
    assert_eq!(3, bbow.match_count("green"));
    assert_eq!(1, bbow.match_count("red"));
    assert_eq!(1, bbow.match_count("blue"));
    assert_eq!(5, bbow.count());
    assert_eq!(3, bbow.len());
}

#[test]
fn lowercased_words_are_owned_copies() {
    let text = "one twO two three";
    let bbow = Bbow::new().extend_from_text(text);
    assert_eq!(
        vec![("one", true), ("three", true), ("two", false)],
        bbow.word_origins()
    );
}

#[test]
fn first_form_seen_decides_ownership() {
    let bbow = Bbow::new().extend_from_text("word WORD");
    assert_eq!(vec![("word", true)], bbow.word_origins());
    assert_eq!(2, bbow.match_count("word"));
}

#[test]
fn default_bag_is_empty() {
    let bbow = Bbow::default();
    assert!(bbow.is_empty());
    let bbow = bbow.extend_from_text("Hi");
    assert_eq!(1, bbow.match_count("hi"));
}

#[test]
fn clone_keeps_counts() {
    let bbow = Bbow::new().extend_from_text("x y x");
    let copy = bbow.clone();
    assert_eq!(2, copy.match_count("x"));
    assert_eq!(bbow.words(), copy.words());
}
