use spelling_corrector::correction::{correct, possible_edit, render, CorrectionResult};
use spelling_corrector::dictionary::{increment_word, Dictionary};
use spelling_corrector::edits::{generate_edits, make_edits, splits};
use spelling_corrector::training::{ingest, train};

fn trained(text: &str) -> Dictionary {
    let lines: Vec<String> = text.lines().map(String::from).collect();
    let mut dictionary = Dictionary::new();
    train(&lines, &mut dictionary);
    dictionary
}

fn hello_world_word() -> Dictionary {
    trained("hello world hello word hello world")
}

fn corrected(edit: &str) -> CorrectionResult {
    CorrectionResult::Corrected(edit.to_owned())
}

fn report(input: &str, dictionary: &Dictionary) -> Vec<String> {
    input.lines().map(|word| render(word, &correct(word, dictionary))).collect()
}

#[test]
fn deletes_test() {
    let dictionary = hello_world_word();

    let output = report("Hellob\nkhello\nwjorld\nwioprld", &dictionary);
    assert_eq!(output, ["Hellob, Hello", "khello, hello", "wjorld, world", "wioprld, world"]);
}

#[test]
fn replaces_test() {
    let dictionary = hello_world_word();

    let output = report("Hellb\nyello\ndorw\nrorld", &dictionary);
    assert_eq!(output, ["Hellb, Hello", "yello, hello", "dorw, word", "rorld, world"]);
}

#[test]
fn transposes_test() {
    let dictionary = hello_world_word();

    let output = report("eHllo\nehlol\nowdr\nowrdl", &dictionary);
    assert_eq!(output, ["eHllo, Hello", "ehlol, hello", "owdr, word", "owrdl, world"]);
}

#[test]
fn inserts_test() {
    let dictionary = hello_world_word();

    let output = report("Helo\nheo\nwd\nwld", &dictionary);
    assert_eq!(output, ["Helo, Hello", "heo, hello", "wd, word", "wld, world"]);
}

#[test]
fn known_words_are_exact_whatever_their_case() {
    let dictionary = hello_world_word();
    for word in ["hello", "Hello", "HELLO", "hElLo", "world", "WORD"] {
        let result = correct(word, &dictionary);
        assert_eq!(result, CorrectionResult::Exact, "{}", word);
        assert_eq!(render(word, &result), word);
    }
}

#[test]
fn single_edits_come_before_more_frequent_double_edits() {
    let dictionary = trained("help hello hello hello hello hello");
    assert_eq!(dictionary.get("help"), Some(1));
    assert_eq!(dictionary.get("hello"), Some(5));
    assert_eq!(correct("hel", &dictionary), corrected("help"));
    assert_eq!(correct("helo", &dictionary), corrected("hello"));
}

#[test]
fn the_most_frequent_single_edit_wins() {
    let dictionary = trained("cat cot cot cut cut cut");
    assert_eq!(correct("cxt", &dictionary), corrected("cut"));
    assert_eq!(correct("ct", &dictionary), corrected("cut"));
}

#[test]
fn the_first_of_equally_frequent_candidates_wins() {
    // At the first split the insertion of `a` is made before the replacement by `b`.
    let dictionary = trained("bb axb");
    assert_eq!(correct("xb", &dictionary), corrected("axb"));
    // The deletion at the first split is made before anything at a later split.
    let dictionary = trained("ab ba");
    assert_eq!(correct("aba", &dictionary), corrected("ba"));
    // An earlier split is scanned before a later one.
    let dictionary = trained("xa ax");
    assert_eq!(correct("a", &dictionary), corrected("xa"));
}

#[test]
fn distance_two_coverage() {
    let dictionary = hello_world_word();
    assert_eq!(correct("Hellob", &dictionary), corrected("Hello"));
    assert_eq!(correct("wjorld", &dictionary), corrected("world"));
    assert_eq!(correct("dorw", &dictionary), corrected("word"));
    assert_eq!(correct("eHllo", &dictionary), corrected("Hello"));
}

#[test]
fn no_match_beyond_two_edits() {
    let dictionary = hello_world_word();
    let result = correct("xyzxyz", &dictionary);
    assert_eq!(result, CorrectionResult::NoMatch);
    assert_eq!(render("xyzxyz", &result), "xyzxyz, -");
    assert_eq!(correct("helloxyz", &dictionary), CorrectionResult::NoMatch);
}

#[test]
fn nothing_matches_an_empty_dictionary() {
    let dictionary = Dictionary::new();
    assert_eq!(correct("hello", &dictionary), CorrectionResult::NoMatch);
    assert_eq!(correct("", &dictionary), CorrectionResult::NoMatch);
}

#[test]
fn the_empty_word_is_corrected_by_insertions() {
    let dictionary = trained("i a a");
    assert_eq!(correct("", &dictionary), corrected("a"));
    let dictionary = trained("to");
    assert_eq!(correct("", &dictionary), corrected("to"));
    let dictionary = trained("the");
    assert_eq!(correct("", &dictionary), CorrectionResult::NoMatch);
}

#[test]
fn candidates_keep_the_case_of_the_word() {
    let dictionary = hello_world_word();
    assert_eq!(correct("HELLOB", &dictionary), corrected("HELLO"));
    assert_eq!(correct("WoRlX", &dictionary), corrected("WoRld"));
    assert_eq!(correct("HELO", &dictionary), corrected("HElLO"));
}

#[test]
fn words_with_other_characters_are_ordinary_data() {
    let dictionary = hello_world_word();
    assert_eq!(correct("he-llo", &dictionary), corrected("hello"));
    assert_eq!(correct("w0rld", &dictionary), corrected("world"));
    assert_eq!(correct("h\u{e9}llo", &dictionary), corrected("hello"));
    assert_eq!(correct("\u{4e16}\u{754c}", &dictionary), CorrectionResult::NoMatch);
    assert_eq!(correct("12", &dictionary), CorrectionResult::NoMatch);
}

#[test]
fn correct_is_deterministic() {
    let dictionary = trained("bb axb hello help");
    for word in ["xb", "hel", "hello", "zzzzzz", ""] {
        let first = correct(word, &dictionary);
        for _ in 0..3 {
            assert_eq!(correct(word, &dictionary), first);
        }
    }
}

#[test]
fn render_formats_each_result() {
    assert_eq!(render("Hello", &CorrectionResult::Exact), "Hello");
    assert_eq!(render("Hellob", &corrected("Hello")), "Hellob, Hello");
    assert_eq!(render("xyzxyz", &CorrectionResult::NoMatch), "xyzxyz, -");
    assert_eq!(render("", &CorrectionResult::NoMatch), ", -");
    assert_eq!(render("", &corrected("a")), ", a");
}

#[test]
fn possible_edit_picks_the_first_of_the_most_frequent() {
    let dictionary = trained("one two two three three");
    let mut edits: Vec<String> =
        ["four", "One", "TWO", "three", "two"].iter().map(|s| s.to_string()).collect();
    let mut max_frequency = 0;
    assert_eq!(possible_edit(&mut max_frequency, &mut edits, &dictionary), Some("TWO"));
    assert_eq!(max_frequency, 2);
    assert_eq!(edits, ["four", "One", "TWO", "three", "two"]);
}

#[test]
fn possible_edit_needs_more_than_the_running_maximum() {
    let dictionary = trained("one two two three three three");
    let mut edits: Vec<String> = ["one", "two"].iter().map(|s| s.to_string()).collect();
    let mut max_frequency = 2;
    assert_eq!(possible_edit(&mut max_frequency, &mut edits, &dictionary), None);
    assert_eq!(max_frequency, 2);
    let mut max_frequency = 1;
    assert_eq!(possible_edit(&mut max_frequency, &mut edits, &dictionary), Some("two"));
    assert_eq!(max_frequency, 2);
    let mut more: Vec<String> = ["two", "three", "one"].iter().map(|s| s.to_string()).collect();
    assert_eq!(possible_edit(&mut max_frequency, &mut more, &dictionary), Some("three"));
    assert_eq!(max_frequency, 3);
}

#[test]
fn possible_edit_finds_nothing_among_unknown_words() {
    let dictionary = hello_world_word();
    let mut edits: Vec<String> = ["help", "-", ""].iter().map(|s| s.to_string()).collect();
    let mut max_frequency = 0;
    assert_eq!(possible_edit(&mut max_frequency, &mut edits, &dictionary), None);
    assert_eq!(max_frequency, 0);
    let mut none: Vec<String> = Vec::new();
    assert_eq!(possible_edit(&mut max_frequency, &mut none, &dictionary), None);
}

#[test]
fn splits_cut_at_every_position() {
    assert_eq!(splits("abc"), [("", "abc"), ("a", "bc"), ("ab", "c"), ("abc", "")]);
    assert_eq!(splits(""), [("", "")]);
    assert_eq!(splits("\u{e9}a"), [("", "\u{e9}a"), ("\u{e9}", "a"), ("\u{e9}a", "")]);
}

fn letters_after(prefix: &str, suffix: &str) -> Vec<String> {
    ('a'..='z').map(|c| format!("{}{}{}", prefix, c, suffix)).collect()
}

#[test]
fn edits_of_the_empty_word_are_the_letters() {
    assert_eq!(generate_edits(""), letters_after("", ""));
}

#[test]
fn edits_of_one_character_in_order() {
    let mut expected = vec!["".to_owned()];
    for c in 'a'..='z' {
        expected.push(c.to_string());
        expected.push(format!("{}x", c));
    }
    expected.extend(letters_after("x", ""));
    assert_eq!(generate_edits("x"), expected);
}

#[test]
fn edits_of_two_characters_in_order() {
    let mut expected = vec!["b".to_owned(), "ba".to_owned()];
    for c in 'a'..='z' {
        expected.push(format!("{}b", c));
        expected.push(format!("{}ab", c));
    }
    expected.push("a".to_owned());
    for c in 'a'..='z' {
        expected.push(format!("a{}", c));
        expected.push(format!("a{}b", c));
    }
    expected.extend(letters_after("ab", ""));
    assert_eq!(generate_edits("ab"), expected);
}

#[test]
fn edit_counts_follow_the_length() {
    assert_eq!(generate_edits("").len(), 26);
    assert_eq!(generate_edits("a").len(), 79);
    assert_eq!(generate_edits("ab").len(), 133);
    assert_eq!(generate_edits("hello").len(), 295);
    assert_eq!(generate_edits("wioprld").len(), 403);
    assert_eq!(generate_edits("h\u{e9}llo").len(), 295);
}

#[test]
fn edits_hold_each_kind() {
    let edits = generate_edits("word");
    for expected in ["ord", "wrd", "wor", "owrd", "wodr", "ward", "worm", "sword", "words", "world"]
    {
        assert!(edits.iter().any(|edit| edit == expected), "{}", expected);
    }
    assert!(!edits.iter().any(|edit| edit == "drow"));
    assert_eq!(edits.iter().filter(|edit| *edit == "word").count(), 4);
}

#[test]
fn make_edits_appends_after_what_is_there() {
    let mut parts = vec![("", "a"), ("a", "")];
    let mut edits = vec!["kept".to_owned()];
    make_edits(&mut parts, &mut edits);
    assert_eq!(parts, [("", "a"), ("a", "")]);
    assert_eq!(edits[0], "kept");
    assert_eq!(edits[1..], generate_edits("a")[..]);

    let mut none: Vec<(&str, &str)> = Vec::new();
    make_edits(&mut none, &mut edits);
    assert_eq!(edits.len(), 80);
}

#[test]
fn make_edits_takes_any_pair_as_a_split() {
    let mut parts = vec![("x", "yz")];
    let mut edits = Vec::new();
    make_edits(&mut parts, &mut edits);
    assert_eq!(edits.len(), 54);
    assert_eq!(edits[0], "xz");
    assert_eq!(edits[1], "xzy");
    assert_eq!(edits[2], "xaz");
    assert_eq!(edits[3], "xayz");
    assert_eq!(edits[52], "xzz");
    assert_eq!(edits[53], "xzyz");
}

#[test]
fn a_match_through_increment_word_alone() {
    let mut dictionary = Dictionary::new();
    increment_word(&mut dictionary, "spell".to_owned());
    assert_eq!(correct("spel", &dictionary), corrected("spell"));
    assert_eq!(correct("Spell", &dictionary), CorrectionResult::Exact);
    assert_eq!(ingest(&vec!["spell".to_owned()]).get("spell"), dictionary.get("spell"));
}

fn slips_of(word: &str) -> Vec<String> {
    let chars: Vec<char> = word.chars().collect();
    let mut slips = Vec::new();
    for p in 0..chars.len() {
        let mut dropped = chars.clone();
        dropped.remove(p);
        slips.push(dropped.iter().collect());
    }
    for p in 0..chars.len().saturating_sub(1) {
        let mut swapped = chars.clone();
        swapped.swap(p, p + 1);
        slips.push(swapped.iter().collect());
    }
    for c in ['x', 'Q', '7'] {
        for p in 0..chars.len() {
            let mut changed = chars.clone();
            changed[p] = c;
            slips.push(changed.iter().collect());
        }
        for p in 0..=chars.len() {
            let mut added = chars.clone();
            added.insert(p, c);
            slips.push(added.iter().collect());
        }
    }
    slips
}

#[test]
fn every_slip_of_a_known_word_is_corrected() {
    let dictionary = hello_world_word();
    for (key, count) in [("hello", 3), ("world", 2), ("word", 1)] {
        for slip in slips_of(key) {
            match correct(&slip, &dictionary) {
                CorrectionResult::Exact => assert!(dictionary.contains(&slip.to_lowercase())),
                CorrectionResult::Corrected(edit) => {
                    let found = dictionary.get(&edit.to_lowercase());
                    assert!(found >= Some(count), "{} -> {}", slip, edit);
                }
                CorrectionResult::NoMatch => panic!("{} was not corrected", slip),
            }
        }
    }
}

#[test]
fn two_slips_of_a_known_word_are_corrected() {
    let dictionary = trained("spell");
    let mut tried = 0;
    for (i, first) in slips_of("spell").iter().enumerate() {
        for (j, second) in slips_of(first).iter().enumerate() {
            if (i + 3 * j) % 17 == 0 {
                assert_ne!(correct(second, &dictionary), CorrectionResult::NoMatch, "{}", second);
                tried += 1;
            }
        }
    }
    assert!(tried > 50);
}
