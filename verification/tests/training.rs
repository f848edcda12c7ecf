use spelling_corrector::dictionary::{increment_word, Dictionary};
use spelling_corrector::letters::{letter, lowercase, nth_letter, to_lower};
use spelling_corrector::training::{ingest, train, train_line};

fn lines_of(text: &str) -> Vec<String> {
    text.lines().map(String::from).collect()
}

fn assert_hello_world_word(dictionary: &Dictionary) {
    assert_eq!(dictionary.len(), 3);
    assert_eq!(dictionary.get("hello"), Some(3));
    assert_eq!(dictionary.get("world"), Some(2));
    assert_eq!(dictionary.get("word"), Some(1));
}

#[test]
fn basic_training() {
    let input = lines_of("hello world hello word hello world");
    let mut under_test = Dictionary::new();
    train(&input, &mut under_test);

    assert_hello_world_word(&under_test);
}

#[test]
fn ignore_non_alphabetic_training() {
    let input = lines_of("hello\n####'''world hello\nword 395 hello world");
    let mut under_test = Dictionary::new();
    train(&input, &mut under_test);

    assert_hello_world_word(&under_test);
}

#[test]
fn new_dictionary_is_empty() {
    let dictionary = Dictionary::new();
    assert_eq!(dictionary.len(), 0);
    assert!(!dictionary.contains("hello"));
    assert_eq!(dictionary.get("hello"), None);
}

#[test]
fn increment_word_inserts_then_counts() {
    let mut dictionary = Dictionary::new();
    increment_word(&mut dictionary, "word".to_owned());
    assert_eq!(dictionary.get("word"), Some(1));
    assert_eq!(dictionary.len(), 1);
    increment_word(&mut dictionary, "word".to_owned());
    increment_word(&mut dictionary, "other".to_owned());
    assert_eq!(dictionary.get("word"), Some(2));
    assert_eq!(dictionary.get("other"), Some(1));
    assert_eq!(dictionary.len(), 2);
    assert!(dictionary.contains("other"));
    assert!(!dictionary.contains("wor"));
}

#[test]
fn training_folds_case() {
    let mut dictionary = Dictionary::new();
    train_line("Hello hELLO HELLO hello", &mut dictionary);
    assert_eq!(dictionary.len(), 1);
    assert_eq!(dictionary.get("hello"), Some(4));
    assert_eq!(dictionary.get("Hello"), None);
}

#[test]
fn training_splits_on_every_non_letter() {
    let mut dictionary = Dictionary::new();
    train_line("don't stop-me_now2day\tplease", &mut dictionary);
    assert_eq!(dictionary.len(), 7);
    for word in ["don", "t", "stop", "me", "now", "day", "please"] {
        assert_eq!(dictionary.get(word), Some(1), "{}", word);
    }
    assert_eq!(dictionary.get("don't"), None);
}

#[test]
fn training_skips_empty_segments() {
    let mut dictionary = Dictionary::new();
    train_line("", &mut dictionary);
    train_line("   ", &mut dictionary);
    train_line("12 34 !! ''", &mut dictionary);
    assert_eq!(dictionary.len(), 0);
    train_line("  a  ", &mut dictionary);
    assert_eq!(dictionary.len(), 1);
    assert_eq!(dictionary.get("a"), Some(1));
}

#[test]
fn letters_outside_ascii_separate_words() {
    let mut dictionary = Dictionary::new();
    train_line("na\u{ef}ve caf\u{e9}", &mut dictionary);
    assert_eq!(dictionary.get("na"), Some(1));
    assert_eq!(dictionary.get("ve"), Some(1));
    assert_eq!(dictionary.get("caf"), Some(1));
    assert_eq!(dictionary.len(), 3);
}

#[test]
fn training_adds_to_earlier_counts() {
    let mut dictionary = Dictionary::new();
    train(&lines_of("one two\ntwo"), &mut dictionary);
    train(&lines_of("two three"), &mut dictionary);
    assert_eq!(dictionary.get("one"), Some(1));
    assert_eq!(dictionary.get("two"), Some(3));
    assert_eq!(dictionary.get("three"), Some(1));
    assert_eq!(dictionary.len(), 3);
}

#[test]
fn a_word_that_ends_a_line_does_not_join_the_next() {
    let dictionary = ingest(&lines_of("spell\ning"));
    assert_eq!(dictionary.get("spell"), Some(1));
    assert_eq!(dictionary.get("ing"), Some(1));
    assert_eq!(dictionary.get("spelling"), None);
}

#[test]
fn ingest_counts_from_nothing() {
    let dictionary = ingest(&lines_of("hello world hello word hello world"));
    assert_hello_world_word(&dictionary);
    let empty = ingest(&Vec::new());
    assert_eq!(empty.len(), 0);
}

#[test]
fn separators_are_interchangeable() {
    let spaced = ingest(&lines_of("alpha beta alpha"));
    let dotted = ingest(&lines_of("alpha.beta'alpha"));
    let broken = ingest(&lines_of("alpha\nbeta\nalpha"));
    for dictionary in [&spaced, &dotted, &broken] {
        assert_eq!(dictionary.len(), 2);
        assert_eq!(dictionary.get("alpha"), Some(2));
        assert_eq!(dictionary.get("beta"), Some(1));
    }
}

#[test]
fn letter_tells_the_ascii_letters() {
    for c in ['a', 'm', 'z', 'A', 'M', 'Z'] {
        assert!(letter(c), "{}", c);
    }
    for c in ['0', '9', ' ', '\'', '-', '@', '[', '`', '{', '\n', '\u{e9}', '\u{3b1}'] {
        assert!(!letter(c), "{:?}", c);
    }
}

#[test]
fn to_lower_folds_only_ascii_capitals() {
    assert_eq!(to_lower('A'), 'a');
    assert_eq!(to_lower('Q'), 'q');
    assert_eq!(to_lower('Z'), 'z');
    assert_eq!(to_lower('a'), 'a');
    assert_eq!(to_lower('z'), 'z');
    assert_eq!(to_lower('5'), '5');
    assert_eq!(to_lower('@'), '@');
    assert_eq!(to_lower('['), '[');
    assert_eq!(to_lower('\u{c9}'), '\u{c9}');
}

#[test]
fn nth_letter_walks_the_alphabet() {
    let alphabet: String = (0..26u8).map(nth_letter).collect();
    assert_eq!(alphabet, "abcdefghijklmnopqrstuvwxyz");
}

#[test]
fn lowercase_folds_each_character() {
    assert_eq!(lowercase("Hello, World!"), "hello, world!");
    assert_eq!(lowercase("ABC"), "abc");
    assert_eq!(lowercase(""), "");
    assert_eq!(lowercase("\u{c9}cole"), "\u{c9}cole");
}
