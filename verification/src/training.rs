//! Training: counting the words of a text into a dictionary.
//!
//! A word of a line is a maximal run of letters, case-folded. Every other character
//! separates words and is dropped.

use vstd::prelude::*;
use vstd::string::*;
use crate::dictionary::{capped, frequency, increment_word, Dictionary};
use crate::letters::{fold, is_letter, is_lower_letter, is_word, letter, to_lower};

verus! {

/// Where the letters that start at position `i` end: the first position from `i` on
/// that holds no letter, or the length of the line.
pub open spec fn run_end(line: Seq<char>, i: int) -> int
    decreases line.len() - i,
{
    if 0 <= i < line.len() && is_letter(line[i]) {
        run_end(line, i + 1)
    } else {
        i
    }
}

/// Whether a maximal run of letters starts at position `i`: a letter stands there, and
/// none stands before it.
pub open spec fn run_starts_at(line: Seq<char>, i: int) -> bool {
    &&& 0 <= i < line.len()
    &&& is_letter(line[i])
    &&& i == 0 || !is_letter(line[i - 1])
}

/// The word that the run of letters from position `i` spells.
pub open spec fn word_at(line: Seq<char>, i: int) -> Seq<char> {
    fold(line.subrange(i, run_end(line, i)))
}

/// The number of positions before `n` at which a maximal run starts that spells `word`.
pub open spec fn occurrences_before(line: Seq<char>, word: Seq<char>, n: int) -> nat
    decreases n,
{
    if n <= 0 {
        0
    } else {
        let here: nat = if run_starts_at(line, n - 1) && word_at(line, n - 1) == word {
            1
        } else {
            0
        };
        occurrences_before(line, word, n - 1) + here
    }
}

/// How often `word` occurs in `line`.
pub open spec fn occurrences(line: Seq<char>, word: Seq<char>) -> nat {
    occurrences_before(line, word, line.len() as int)
}

/// How often `word` occurs in `lines` altogether.
pub open spec fn occurrences_in(lines: Seq<Seq<char>>, word: Seq<char>) -> nat
    decreases lines.len(),
{
    if lines.len() == 0 {
        0
    } else {
        occurrences_in(lines.drop_last(), word) + occurrences(lines.last(), word)
    }
}

/// The positions of `line` before `n` at which a maximal run starts that spells `word`.
pub open spec fn starts_before(line: Seq<char>, word: Seq<char>, n: int) -> Set<int> {
    Set::new(|i: int| 0 <= i < n && run_starts_at(line, i) && word_at(line, i) == word)
}

/// Whether `after` is `before` with `added(w)` more occurrences counted for each word
/// `w`, each count capped at `usize::MAX`.
pub open spec fn counted(
    before: Map<Seq<char>, usize>,
    after: Map<Seq<char>, usize>,
    added: spec_fn(Seq<char>) -> nat,
) -> bool {
    forall|w: Seq<char>| #[trigger]
        frequency(after, w) == capped(frequency(before, w) + added(w))
}

/// Counts the words of `line` into `dictionary`.
///
/// Each count grows by the number of times its word occurs in the line, and stops
/// growing at `usize::MAX`.
pub fn train_line(line: &str, dictionary: &mut Dictionary)
    requires
        old(dictionary).wf(),
    ensures
        final(dictionary).wf(),
        counted(old(dictionary)@, final(dictionary)@, |w: Seq<char>| occurrences(line@, w)),
{
    broadcast use group_string_axioms;

    let ghost text = line@;
    let ghost before = dictionary@;
    let ghost start: int = 0;
    let mut run = String::new();
    for c in it: line.chars()
        invariant
            it.seq() == text,
            text == line@,
            dictionary.wf(),
            0 <= start <= it.index(),
            run@ == fold(text.subrange(start, it.index() as int)),
            forall|k: int| start <= k < it.index() ==> is_letter(#[trigger] text[k]),
            start == 0 || !is_letter(text[start - 1]),
            counted(before, dictionary@, |w: Seq<char>| occurrences_before(text, w, start)),
    {
        let ghost at = it.index() as int;
        if letter(c) {
            run.push(to_lower(c));
            assert(run@ =~= fold(text.subrange(start, at + 1)));
        } else {
            if !run.as_str().is_empty() {
                let ghost counts = dictionary@;
                proof {
                    lemma_run_counts_once(text, run@, start, at);
                }
                increment_word(dictionary, run);
                run = String::new();
                assert forall|w: Seq<char>| #[trigger]
                    frequency(dictionary@, w) == capped(
                        frequency(before, w) + occurrences_before(text, w, at + 1),
                    ) by {
                    lemma_run_counts_once(text, w, start, at);
                    assert(frequency(counts, w) == capped(
                        frequency(before, w) + occurrences_before(text, w, start),
                    ));
                }
            } else {
                assert(start == at);
            }
            proof {
                start = at + 1;
            }
            assert(run@ =~= fold(text.subrange(start, at + 1)));
        }
    }
    let ghost end = text.len() as int;
    if !run.as_str().is_empty() {
        let ghost counts = dictionary@;
        proof {
            lemma_run_counts_once(text, run@, start, end);
        }
        increment_word(dictionary, run);
        assert forall|w: Seq<char>| #[trigger]
            frequency(dictionary@, w) == capped(frequency(before, w) + occurrences(text, w)) by {
            lemma_run_counts_once(text, w, start, end);
            assert(frequency(counts, w) == capped(
                frequency(before, w) + occurrences_before(text, w, start),
            ));
        }
    } else {
        assert(start == end);
    }
}

/// Counts the words of every line of `lines` into `dictionary`.
///
/// Each count grows by the number of times its word occurs in the lines, and stops
/// growing at `usize::MAX`.
pub fn train(lines: &Vec<String>, dictionary: &mut Dictionary)
    requires
        old(dictionary).wf(),
    ensures
        final(dictionary).wf(),
        counted(
            old(dictionary)@,
            final(dictionary)@,
            |w: Seq<char>| occurrences_in(lines.deep_view(), w),
        ),
{
    let ghost texts = lines.deep_view();
    let ghost before = dictionary@;
    let mut i: usize = 0;
    while i < lines.len()
        invariant
            i <= lines.len(),
            texts == lines.deep_view(),
            dictionary.wf(),
            counted(before, dictionary@, |w: Seq<char>| occurrences_in(texts.take(i as int), w)),
        decreases lines.len() - i,
    {
        let ghost counts = dictionary@;
        train_line(lines[i].as_str(), dictionary);
        assert forall|w: Seq<char>| #[trigger]
            frequency(dictionary@, w) == capped(
                frequency(before, w) + occurrences_in(texts.take(i + 1), w),
            ) by {
            assert(texts.take(i + 1).drop_last() =~= texts.take(i as int));
            assert(frequency(counts, w) == capped(
                frequency(before, w) + occurrences_in(texts.take(i as int), w),
            ));
        }
        i += 1;
    }
    assert(texts.take(texts.len() as int) =~= texts);
}

/// The dictionary of a training text: each word of `lines` with the number of times it
/// occurs, capped at `usize::MAX`.
pub fn ingest(lines: &Vec<String>) -> (dictionary: Dictionary)
    ensures
        dictionary.wf(),
        forall|w: Seq<char>| #[trigger]
            dictionary@.contains_key(w) <==> occurrences_in(lines.deep_view(), w) > 0,
        forall|w: Seq<char>|
            dictionary@.contains_key(w) ==> #[trigger] dictionary@[w] == capped(
                occurrences_in(lines.deep_view(), w),
            ),
{
    let mut dictionary = Dictionary::new();
    train(lines, &mut dictionary);
    assert forall|w: Seq<char>| #[trigger]
        dictionary@.contains_key(w) <==> occurrences_in(lines.deep_view(), w) > 0 by {
        assert(frequency(dictionary@, w) == capped(occurrences_in(lines.deep_view(), w)));
    }
    assert forall|w: Seq<char>| dictionary@.contains_key(w) implies #[trigger] dictionary@[w]
        == capped(occurrences_in(lines.deep_view(), w)) by {
        assert(frequency(dictionary@, w) == capped(occurrences_in(lines.deep_view(), w)));
    }
    dictionary
}

/// The occurrences of a word in a line are as many as the maximal runs of letters that
/// spell it.
pub proof fn lemma_occurrences_count_runs(line: Seq<char>, word: Seq<char>, n: int)
    ensures
        starts_before(line, word, n).finite(),
        occurrences_before(line, word, n) == starts_before(line, word, n).len(),
    decreases n,
{
    if n <= 0 {
        assert(starts_before(line, word, n) =~= Set::empty());
    } else {
        lemma_occurrences_count_runs(line, word, n - 1);
        let earlier = starts_before(line, word, n - 1);
        if run_starts_at(line, n - 1) && word_at(line, n - 1) == word {
            assert(starts_before(line, word, n) =~= earlier.insert(n - 1));
        } else {
            assert(starts_before(line, word, n) =~= earlier);
        }
    }
}

/// A run ends where its letters stop: from `i` to `run_end(line, i)` stand letters only,
/// and what follows is no letter or the end of the line.
pub proof fn lemma_run_ends_where_letters_stop(line: Seq<char>, i: int)
    requires
        0 <= i <= line.len(),
    ensures
        i <= run_end(line, i) <= line.len(),
        forall|k: int| i <= k < run_end(line, i) ==> is_letter(#[trigger] line[k]),
        run_end(line, i) == line.len() || !is_letter(line[run_end(line, i)]),
    decreases line.len() - i,
{
    if i < line.len() && is_letter(line[i]) {
        lemma_run_ends_where_letters_stop(line, i + 1);
    }
}

/// A line without a letter has no words.
pub proof fn lemma_no_letters_no_words(line: Seq<char>, word: Seq<char>)
    requires
        forall|i: int| 0 <= i < line.len() ==> !is_letter(#[trigger] line[i]),
    ensures
        occurrences(line, word) == 0,
{
    lemma_no_run_starts(line, word, 0, line.len() as int);
}

/// A line of letters only has one word: the whole line, case-folded.
pub proof fn lemma_letters_are_one_word(line: Seq<char>, word: Seq<char>)
    requires
        line.len() > 0,
        forall|i: int| 0 <= i < line.len() ==> is_letter(#[trigger] line[i]),
    ensures
        occurrences(line, word) == if word == fold(line) {
            1nat
        } else {
            0nat
        },
{
    lemma_run_counts_once(line, word, 0, line.len() as int);
    assert(line.subrange(0, line.len() as int) =~= line);
}

/// A character that is no letter only separates: a line made of `front`, such a
/// character and `back` has the words of `front` and the words of `back`, whichever
/// character it is.
pub proof fn lemma_separator_only_separates(
    front: Seq<char>,
    separator: char,
    back: Seq<char>,
    word: Seq<char>,
)
    requires
        !is_letter(separator),
    ensures
        occurrences(front.push(separator) + back, word) == occurrences(front, word) + occurrences(
            back,
            word,
        ),
{
    let line = front.push(separator) + back;
    let n = front.len() as int;
    assert(line.take(n) =~= front);
    assert(line.skip(n + 1) =~= back);
    assert(line[n] == separator);
    lemma_occurrences_in_front(line, word, n, n);
    assert(!run_starts_at(line, n));
    lemma_occurrences_in_back(line, word, n + 1, back.len() as int);
}

/// Where a line is cut at a character that is no letter, the two pieces as lines of
/// their own have the words of the whole line.
pub proof fn lemma_line_breaks_only_separate(
    front: Seq<char>,
    separator: char,
    back: Seq<char>,
    word: Seq<char>,
)
    requires
        !is_letter(separator),
    ensures
        occurrences_in(seq![front, back], word) == occurrences_in(
            seq![front.push(separator) + back],
            word,
        ),
{
    lemma_separator_only_separates(front, separator, back, word);
    let two = seq![front, back];
    let one = seq![front.push(separator) + back];
    assert(two.drop_last() =~= seq![front]);
    assert(seq![front].drop_last() =~= Seq::<Seq<char>>::empty());
    assert(one.drop_last() =~= Seq::<Seq<char>>::empty());
    assert(occurrences_in(Seq::<Seq<char>>::empty(), word) == 0);
    assert(occurrences_in(seq![front], word) == occurrences(front, word));
    assert(occurrences_in(two, word) == occurrences(front, word) + occurrences(back, word));
    assert(occurrences_in(one, word) == occurrences(one.last(), word));
}

/// Only words are counted: a string that is empty, or holds anything but lower-case
/// letters, occurs in no line.
pub proof fn lemma_only_words_occur(line: Seq<char>, word: Seq<char>)
    requires
        !is_word(word),
    ensures
        occurrences(line, word) == 0,
{
    lemma_only_words_start_runs(line, word, line.len() as int);
}

/// A stretch of letters that a non-letter or the end of the line follows is the rest of
/// a run.
proof fn lemma_run_end(line: Seq<char>, from: int, to: int)
    requires
        0 <= from <= to <= line.len(),
        forall|k: int| from <= k < to ==> is_letter(#[trigger] line[k]),
        to == line.len() || !is_letter(line[to]),
    ensures
        run_end(line, from) == to,
    decreases to - from,
{
    if from < to {
        lemma_run_end(line, from + 1, to);
    }
}

/// Positions at which no run starts add no occurrence.
proof fn lemma_no_run_starts(line: Seq<char>, word: Seq<char>, from: int, to: int)
    requires
        0 <= from <= to,
        forall|k: int| from <= k < to ==> !run_starts_at(line, k),
    ensures
        occurrences_before(line, word, to) == occurrences_before(line, word, from),
    decreases to - from,
{
    if from < to {
        lemma_no_run_starts(line, word, from, to - 1);
    }
}

/// A complete run of letters counts once, for the word that it spells.
proof fn lemma_run_counts_once(line: Seq<char>, word: Seq<char>, start: int, end: int)
    requires
        0 <= start < end <= line.len(),
        forall|k: int| start <= k < end ==> is_letter(#[trigger] line[k]),
        start == 0 || !is_letter(line[start - 1]),
        end == line.len() || !is_letter(line[end]),
    ensures
        is_word(fold(line.subrange(start, end))),
        occurrences_before(line, word, end) == occurrences_before(line, word, start) + (if word
            == fold(line.subrange(start, end)) {
            1nat
        } else {
            0nat
        }),
{
    let run = fold(line.subrange(start, end));
    assert forall|k: int| 0 <= k < run.len() implies is_lower_letter(#[trigger] run[k]) by {
        assert(is_letter(line[start + k]));
    }
    lemma_run_end(line, start, end);
    assert(run_starts_at(line, start));
    lemma_no_run_starts(line, word, start + 1, end);
}

/// Up to a character that is no letter, a line has the runs of what stands before that
/// character.
proof fn lemma_run_end_in_front(line: Seq<char>, n: int, i: int)
    requires
        0 <= i <= n < line.len(),
        !is_letter(line[n]),
    ensures
        run_end(line, i) == run_end(line.take(n), i),
    decreases n - i,
{
    if i < n && is_letter(line[i]) {
        lemma_run_end_in_front(line, n, i + 1);
    }
}

/// From any position on, a line has the runs of what stands from that position on.
proof fn lemma_run_end_in_back(line: Seq<char>, n: int, j: int)
    requires
        0 <= n <= line.len(),
        0 <= j <= line.len() - n,
    ensures
        run_end(line, n + j) == n + run_end(line.skip(n), j),
    decreases line.len() - n - j,
{
    if n + j < line.len() && is_letter(line[n + j]) {
        lemma_run_end_in_back(line, n, j + 1);
    }
}

/// Up to a character that is no letter, a line has the occurrences of what stands
/// before that character.
proof fn lemma_occurrences_in_front(line: Seq<char>, word: Seq<char>, n: int, i: int)
    requires
        0 <= i <= n < line.len(),
        !is_letter(line[n]),
    ensures
        occurrences_before(line, word, i) == occurrences_before(line.take(n), word, i),
    decreases i,
{
    if i > 0 {
        let front = line.take(n);
        lemma_occurrences_in_front(line, word, n, i - 1);
        lemma_run_end_in_front(line, n, i - 1);
        lemma_run_ends_where_letters_stop(front, i - 1);
        assert(line.subrange(i - 1, run_end(line, i - 1)) =~= front.subrange(
            i - 1,
            run_end(front, i - 1),
        ));
    }
}

/// After a character that is no letter, a line has the occurrences of what stands
/// after that character.
proof fn lemma_occurrences_in_back(line: Seq<char>, word: Seq<char>, n: int, j: int)
    requires
        0 < n <= line.len(),
        !is_letter(line[n - 1]),
        0 <= j <= line.len() - n,
    ensures
        occurrences_before(line, word, n + j) == occurrences_before(line, word, n)
            + occurrences_before(line.skip(n), word, j),
    decreases j,
{
    if j > 0 {
        let back = line.skip(n);
        lemma_occurrences_in_back(line, word, n, j - 1);
        lemma_run_end_in_back(line, n, j - 1);
        lemma_run_ends_where_letters_stop(back, j - 1);
        assert(line.subrange(n + j - 1, run_end(line, n + j - 1)) =~= back.subrange(
            j - 1,
            run_end(back, j - 1),
        ));
        assert(run_starts_at(line, n + j - 1) == run_starts_at(back, j - 1));
    }
}

/// No run spells a string that is no word.
proof fn lemma_only_words_start_runs(line: Seq<char>, word: Seq<char>, n: int)
    requires
        !is_word(word),
        n <= line.len(),
    ensures
        occurrences_before(line, word, n) == 0,
    decreases n,
{
    if n > 0 {
        lemma_only_words_start_runs(line, word, n - 1);
        if run_starts_at(line, n - 1) {
            lemma_run_ends_where_letters_stop(line, n - 1);
            lemma_run_ends_where_letters_stop(line, n);
            let run = word_at(line, n - 1);
            assert forall|k: int| 0 <= k < run.len() implies is_lower_letter(#[trigger] run[k]) by {
                assert(is_letter(line[n - 1 + k]));
            }
            assert(is_word(run));
        }
    }
}

} // verus!
