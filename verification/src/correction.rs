//! Choosing a correction: the most frequent dictionary word among the edits of a word,
//! single edits before double edits.

use vstd::prelude::*;
use vstd::string::*;
use crate::dictionary::{frequency, Dictionary};
use crate::edits::{
    edits_of, generate_edits, is_single_edit, is_slip, lemma_edits_are_the_single_edits,
    lemma_flatten_contains, lemma_slip_is_undone, lemma_slip_is_undone_but_at,
    lemma_slip_keeps_letters,
};
use crate::letters::{fold, lemma_fold_fixes_words, lowercase};

verus! {

/// What `correct` found for a word.
#[derive(Debug, PartialEq, Eq)]
pub enum CorrectionResult {
    /// The word, case-folded, is in the dictionary.
    Exact,
    /// The word is unknown; this edit of it is the best match.
    Corrected(String),
    /// Neither the word nor any string within two edits of it is in the dictionary.
    NoMatch,
}

/// The view of a `CorrectionResult`: the same result with the correction as a sequence
/// of characters.
pub enum Outcome {
    Exact,
    Corrected(Seq<char>),
    NoMatch,
}

impl View for CorrectionResult {
    type V = Outcome;

    open spec fn view(&self) -> Outcome {
        match self {
            CorrectionResult::Exact => Outcome::Exact,
            CorrectionResult::Corrected(edit) => Outcome::Corrected(edit@),
            CorrectionResult::NoMatch => Outcome::NoMatch,
        }
    }
}

/// How much a candidate counts for: the count of the dictionary word that it folds to,
/// and zero where there is none.
pub open spec fn weight(counts: Map<Seq<char>, usize>, candidate: Seq<char>) -> nat {
    frequency(counts, fold(candidate))
}

/// Whether some candidate weighs more than `floor`.
pub open spec fn has_match(
    candidates: Seq<Seq<char>>,
    counts: Map<Seq<char>, usize>,
    floor: nat,
) -> bool {
    exists|i: int| 0 <= i < candidates.len() && weight(counts, #[trigger] candidates[i]) > floor
}

/// Whether candidate `i` is the first of the heaviest candidates, and weighs more than
/// `floor`: every candidate before it is lighter, none after it is heavier.
pub open spec fn is_pick(
    candidates: Seq<Seq<char>>,
    counts: Map<Seq<char>, usize>,
    floor: nat,
    i: int,
) -> bool {
    &&& 0 <= i < candidates.len()
    &&& weight(counts, candidates[i]) > floor
    &&& forall|j: int|
        0 <= j < i ==> weight(counts, #[trigger] candidates[j]) < weight(counts, candidates[i])
    &&& forall|j: int|
        i < j < candidates.len() ==> weight(counts, #[trigger] candidates[j]) <= weight(
            counts,
            candidates[i],
        )
}

/// The outcome of one scan over `candidates` that starts with the running maximum at
/// `floor`: `best` is the text of the pick and `top` its weight, or there is no pick and
/// `top` is still `floor`.
pub open spec fn scanned(
    candidates: Seq<Seq<char>>,
    counts: Map<Seq<char>, usize>,
    floor: nat,
    best: Option<Seq<char>>,
    top: nat,
) -> bool {
    match best {
        Some(text) => exists|i: int|
            is_pick(candidates, counts, floor, i) && #[trigger] candidates[i] == text && top
                == weight(counts, text),
        None => !has_match(candidates, counts, floor) && top == floor,
    }
}

/// Every string two edits away from `word`: the edits of its first edit, then those of
/// its second edit, and so on.
pub open spec fn second_edits_of(word: Seq<char>) -> Seq<Seq<char>> {
    edits_of(word).map_values(|edit: Seq<char>| edits_of(edit)).flatten()
}

/// Whether `text` is the first of the heaviest candidates, and in the dictionary.
pub open spec fn is_first_best(
    candidates: Seq<Seq<char>>,
    counts: Map<Seq<char>, usize>,
    text: Seq<char>,
) -> bool {
    exists|i: int| is_pick(candidates, counts, 0, i) && #[trigger] candidates[i] == text
}

/// Whether `outcome` is the correction of `word` against the dictionary `counts`.
///
/// A known word is `Exact`. An unknown word with a match among its single edits is
/// corrected to the first of the most frequent of those; double edits are looked at only
/// when no single edit matches. A word with no match in either round is `NoMatch`.
pub open spec fn is_correction(
    word: Seq<char>,
    counts: Map<Seq<char>, usize>,
    outcome: Outcome,
) -> bool {
    if counts.contains_key(fold(word)) {
        outcome is Exact
    } else if has_match(edits_of(word), counts, 0) {
        outcome matches Outcome::Corrected(text) && is_first_best(edits_of(word), counts, text)
    } else if has_match(second_edits_of(word), counts, 0) {
        outcome matches Outcome::Corrected(text) && is_first_best(
            second_edits_of(word),
            counts,
            text,
        )
    } else {
        outcome is NoMatch
    }
}

/// The line that reports `outcome` for `word`: the word alone where it is known, else
/// the word, a comma, a space, and the correction or a dash.
pub open spec fn rendering(word: Seq<char>, outcome: Outcome) -> Seq<char> {
    match outcome {
        Outcome::Exact => word,
        Outcome::Corrected(text) => word + seq![',', ' '] + text,
        Outcome::NoMatch => word + seq![',', ' ', '-'],
    }
}

/// The text of an edit that may not be there.
pub open spec fn text_of(edit: Option<String>) -> Option<Seq<char>> {
    match edit {
        Some(edit) => Some(edit@),
        None => None,
    }
}

/// Scans `edits` in order for the heaviest candidate, with `max_frequency` as the
/// running maximum.
///
/// A candidate is looked up by its case-folded text. The result is the first candidate
/// whose count exceeds both the maximum on entry and the count of every candidate before
/// it, and is exceeded by none after it; `max_frequency` is then that count. Where no
/// candidate exceeds the maximum on entry the result is `None` and `max_frequency` is
/// unchanged. `edits` is left as it was.
pub fn possible_edit<'a, 'b>(
    max_frequency: &'a mut usize,
    edits: &'a mut Vec<String>,
    dictionary: &'b Dictionary,
) -> (best: Option<&'a str>)
    ensures
        final(edits)@ == old(edits)@,
        match best {
            Some(edit) => scanned(
                old(edits).deep_view(),
                dictionary@,
                *old(max_frequency) as nat,
                Some(edit@),
                *final(max_frequency) as nat,
            ),
            None => scanned(
                old(edits).deep_view(),
                dictionary@,
                *old(max_frequency) as nat,
                None,
                *final(max_frequency) as nat,
            ),
        },
{
    let ghost candidates = edits.deep_view();
    let ghost counts = dictionary@;
    let ghost floor = *max_frequency as nat;
    let mut found: Option<usize> = None;
    let mut i: usize = 0;
    while i < edits.len()
        invariant
            i <= edits.len(),
            edits@ == old(edits)@,
            candidates == edits.deep_view(),
            counts == dictionary@,
            match found {
                Some(k) => is_pick(candidates.take(i as int), counts, floor, k as int)
                    && *max_frequency == weight(counts, candidates[k as int]),
                None => !has_match(candidates.take(i as int), counts, floor) && *max_frequency
                    == floor,
            },
        decreases edits.len() - i,
    {
        let ghost seen = candidates.take(i as int);
        let ghost next = candidates.take(i + 1);
        assert(forall|j: int| 0 <= j < i ==> seen[j] == next[j]);
        assert(forall|j: int|
            0 <= j < i ==> weight(counts, #[trigger] seen[j]) <= *max_frequency);
        let key = lowercase(edits[i].as_str());
        match dictionary.get(key.as_str()) {
            Some(count) => {
                if count > *max_frequency {
                    found = Some(i);
                    *max_frequency = count;
                }
            },
            None => {},
        }
        proof {
            match found {
                Some(k) => {
                    assert(is_pick(next, counts, floor, k as int));
                },
                None => {
                    assert(!has_match(next, counts, floor));
                },
            }
        }
        i += 1;
    }
    assert(candidates.take(candidates.len() as int) =~= candidates);
    match found {
        Some(k) => Some(edits[k].as_str()),
        None => None,
    }
}

/// Corrects `word` against `dictionary`.
///
/// The word is looked up case-folded, so a known word is `Exact` whatever its casing.
/// The correction of an unknown word is one of its edits as generated, with the casing
/// that the word's own characters have in it.
pub fn correct(word: &str, dictionary: &Dictionary) -> (result: CorrectionResult)
    ensures
        is_correction(word@, dictionary@, result@),
{
    let key = lowercase(word);
    if dictionary.contains(key.as_str()) {
        return CorrectionResult::Exact;
    }
    let ghost counts = dictionary@;
    let mut max_frequency: usize = 0;
    let mut first_edits = generate_edits(word);
    match possible_edit(&mut max_frequency, &mut first_edits, dictionary) {
        Some(edit) => {
            return CorrectionResult::Corrected(edit.to_owned());
        },
        None => {},
    }
    let ghost firsts = edits_of(word@);
    let ghost each = |edit: Seq<char>| edits_of(edit);
    let mut best: Option<String> = None;
    let mut i: usize = 0;
    assert(firsts.take(0).map_values(each) =~= Seq::empty());
    while i < first_edits.len()
        invariant
            i <= first_edits.len(),
            first_edits.deep_view() == firsts,
            counts == dictionary@,
            each == |edit: Seq<char>| edits_of(edit),
            scanned(
                firsts.take(i as int).map_values(each).flatten(),
                counts,
                0,
                text_of(best),
                max_frequency as nat,
            ),
        decreases first_edits.len() - i,
    {
        let ghost seen = firsts.take(i as int).map_values(each);
        let ghost floor = max_frequency as nat;
        let ghost before = text_of(best);
        let mut second_edits = generate_edits(first_edits[i].as_str());
        let found = possible_edit(&mut max_frequency, &mut second_edits, dictionary);
        let ghost after = if found is Some {
            Some(found->0@)
        } else {
            None
        };
        match found {
            Some(edit) => {
                best = Some(edit.to_owned());
            },
            None => {},
        }
        proof {
            assert(firsts.take(i + 1).map_values(each) =~= seen.push(each(firsts[i as int])));
            seen.lemma_flatten_push(each(firsts[i as int]));
            lemma_scan_in_two(
                seen.flatten(),
                edits_of(firsts[i as int]),
                counts,
                0,
                before,
                floor,
                after,
                max_frequency as nat,
            );
        }
        i += 1;
    }
    assert(firsts.take(firsts.len() as int) =~= firsts);
    match best {
        Some(edit) => CorrectionResult::Corrected(edit),
        None => CorrectionResult::NoMatch,
    }
}

/// The line that reports `result` for `word`.
pub fn render(word: &str, result: &CorrectionResult) -> (line: String)
    ensures
        line@ == rendering(word@, result@),
{
    let mut line = word.to_owned();
    match result {
        CorrectionResult::Exact => {},
        CorrectionResult::Corrected(edit) => {
            line.push(',');
            line.push(' ');
            line.append(edit.as_str());
        },
        CorrectionResult::NoMatch => {
            line.push(',');
            line.push(' ');
            line.push('-');
        },
    }
    assert(line@ =~= rendering(word@, result@));
    line
}

/// A scan of `front + back` is a scan of `front` followed by a scan of `back` that
/// starts from the maximum the first one reached; the later pick, if there is one, wins.
pub proof fn lemma_scan_in_two(
    front: Seq<Seq<char>>,
    back: Seq<Seq<char>>,
    counts: Map<Seq<char>, usize>,
    floor: nat,
    first: Option<Seq<char>>,
    middle: nat,
    second: Option<Seq<char>>,
    top: nat,
)
    requires
        scanned(front, counts, floor, first, middle),
        scanned(back, counts, middle, second, top),
    ensures
        scanned(
            front + back,
            counts,
            floor,
            if second is Some {
                second
            } else {
                first
            },
            top,
        ),
{
    let all = front + back;
    assert(forall|j: int| 0 <= j < front.len() ==> all[j] == front[j]);
    assert(forall|j: int| front.len() <= j < all.len() ==> all[j] == back[j - front.len()]);
    assert(forall|j: int| 0 <= j < front.len() ==> weight(counts, #[trigger] front[j]) <= middle);
    if second is Some {
        let k = choose|k: int|
            is_pick(back, counts, middle, k) && #[trigger] back[k] == second->0 && top == weight(
                counts,
                second->0,
            );
        assert(is_pick(all, counts, floor, front.len() + k));
    } else if first is Some {
        let k = choose|k: int|
            is_pick(front, counts, floor, k) && #[trigger] front[k] == first->0 && middle
                == weight(counts, first->0);
        assert(is_pick(all, counts, floor, k));
    }
}

/// Two candidates cannot both be the pick of one scan.
pub proof fn lemma_pick_is_unique(
    candidates: Seq<Seq<char>>,
    counts: Map<Seq<char>, usize>,
    floor: nat,
    i: int,
    j: int,
)
    requires
        is_pick(candidates, counts, floor, i),
        is_pick(candidates, counts, floor, j),
    ensures
        i == j,
{
}

/// In a well-formed dictionary the candidates that count for something are those whose
/// case-folded text is a key.
pub proof fn lemma_weight_of_known(dictionary: Dictionary, candidate: Seq<char>)
    requires
        dictionary.wf(),
    ensures
        weight(dictionary@, candidate) > 0 <==> dictionary@.contains_key(fold(candidate)),
{
}

/// Correcting is a function of the word and the dictionary: two outcomes for the same
/// word and dictionary are the same outcome.
pub proof fn lemma_correct_is_deterministic(
    word: Seq<char>,
    counts: Map<Seq<char>, usize>,
    first: Outcome,
    second: Outcome,
)
    requires
        is_correction(word, counts, first),
        is_correction(word, counts, second),
    ensures
        first == second,
{
    if !counts.contains_key(fold(word)) {
        let candidates = if has_match(edits_of(word), counts, 0) {
            edits_of(word)
        } else {
            second_edits_of(word)
        };
        if has_match(candidates, counts, 0) {
            let i = choose|i: int|
                is_pick(candidates, counts, 0, i) && #[trigger] candidates[i] == first->0;
            let j = choose|j: int|
                is_pick(candidates, counts, 0, j) && #[trigger] candidates[j] == second->0;
            lemma_pick_is_unique(candidates, counts, 0, i, j);
        }
    }
}

/// A word whose case-folded form is a key is `Exact`, whatever its casing, and is
/// reported as it was given.
pub proof fn lemma_known_word_is_exact(
    word: Seq<char>,
    counts: Map<Seq<char>, usize>,
    outcome: Outcome,
)
    requires
        is_correction(word, counts, outcome),
        counts.contains_key(fold(word)),
    ensures
        outcome is Exact,
        rendering(word, outcome) == word,
{
}

/// Every key of a well-formed dictionary is a known word.
pub proof fn lemma_keys_are_exact(dictionary: Dictionary, key: Seq<char>, outcome: Outcome)
    requires
        dictionary.wf(),
        dictionary@.contains_key(key),
        is_correction(key, dictionary@, outcome),
    ensures
        outcome is Exact,
{
    lemma_fold_fixes_words(key);
}

/// Single edits come first: where the word is unknown and one of its single edits is
/// in the dictionary, the correction is a single edit of the word, and no single edit
/// of the word is more frequent, whatever the double edits hold.
pub proof fn lemma_single_edits_come_first(
    word: Seq<char>,
    dictionary: Dictionary,
    outcome: Outcome,
    i: int,
)
    requires
        dictionary.wf(),
        is_correction(word, dictionary@, outcome),
        !dictionary@.contains_key(fold(word)),
        0 <= i < edits_of(word).len(),
        dictionary@.contains_key(fold(edits_of(word)[i])),
    ensures
        outcome is Corrected,
        edits_of(word).contains(outcome->0),
        dictionary@.contains_key(fold(outcome->0)),
        forall|j: int|
            0 <= j < edits_of(word).len() ==> weight(dictionary@, #[trigger] edits_of(word)[j])
                <= weight(dictionary@, outcome->0),
{
    let singles = edits_of(word);
    assert(weight(dictionary@, singles[i]) > 0);
    let k = choose|k: int| is_pick(singles, dictionary@, 0, k) && #[trigger] singles[k] == outcome->0;
    assert forall|j: int| 0 <= j < singles.len() implies weight(dictionary@, #[trigger] singles[j])
        <= weight(dictionary@, singles[k]) by {
        if j < k {
        } else if j > k {
        }
    }
}

/// A word is corrected exactly when something within two edits of it is in the
/// dictionary: the outcome is `NoMatch` if and only if neither the word, nor a single
/// edit of it, nor a double edit of it, case-folded, is a key.
pub proof fn lemma_no_match_means_nothing_near(
    word: Seq<char>,
    dictionary: Dictionary,
    outcome: Outcome,
)
    requires
        dictionary.wf(),
        is_correction(word, dictionary@, outcome),
    ensures
        outcome is NoMatch <==> {
            &&& !dictionary@.contains_key(fold(word))
            &&& forall|i: int|
                0 <= i < edits_of(word).len() ==> !dictionary@.contains_key(
                    fold(#[trigger] edits_of(word)[i]),
                )
            &&& forall|i: int|
                0 <= i < second_edits_of(word).len() ==> !dictionary@.contains_key(
                    fold(#[trigger] second_edits_of(word)[i]),
                )
        },
{
    let counts = dictionary@;
    let singles = edits_of(word);
    let doubles = second_edits_of(word);
    if has_match(singles, counts, 0) {
        let i = choose|i: int| 0 <= i < singles.len() && weight(counts, #[trigger] singles[i]) > 0;
        assert(counts.contains_key(fold(singles[i])));
    } else {
        assert forall|i: int| 0 <= i < singles.len() implies !counts.contains_key(
            fold(#[trigger] singles[i]),
        ) by {
            assert(weight(counts, singles[i]) <= 0);
        }
    }
    if has_match(doubles, counts, 0) {
        let i = choose|i: int| 0 <= i < doubles.len() && weight(counts, #[trigger] doubles[i]) > 0;
        assert(counts.contains_key(fold(doubles[i])));
    } else {
        assert forall|i: int| 0 <= i < doubles.len() implies !counts.contains_key(
            fold(#[trigger] doubles[i]),
        ) by {
            assert(weight(counts, doubles[i]) <= 0);
        }
    }
}

/// A correction is in the dictionary and near the word: the text of a `Corrected`
/// outcome, case-folded, is a key, the word itself is not, and the text is a single or
/// a double edit of the word.
pub proof fn lemma_correction_is_known(
    word: Seq<char>,
    counts: Map<Seq<char>, usize>,
    outcome: Outcome,
)
    requires
        is_correction(word, counts, outcome),
        outcome is Corrected,
    ensures
        counts.contains_key(fold(outcome->0)),
        !counts.contains_key(fold(word)),
        edits_of(word).contains(outcome->0) || second_edits_of(word).contains(outcome->0),
{
    let candidates = if has_match(edits_of(word), counts, 0) {
        edits_of(word)
    } else {
        second_edits_of(word)
    };
    let i = choose|i: int| is_pick(candidates, counts, 0, i) && #[trigger] candidates[i] == outcome->0;
    assert(weight(counts, candidates[i]) > 0);
}

/// The double edits of a word are the single edits of its single edits.
pub proof fn lemma_second_edits_are_the_double_edits(word: Seq<char>, text: Seq<char>)
    ensures
        second_edits_of(word).contains(text) <==> exists|middle: Seq<char>|
            #[trigger] is_single_edit(word, middle) && is_single_edit(middle, text),
{
    let singles = edits_of(word);
    let each = |edit: Seq<char>| edits_of(edit);
    let parts = singles.map_values(each);
    lemma_flatten_contains(parts, text);
    if second_edits_of(word).contains(text) {
        let i = choose|i: int| 0 <= i < parts.len() && (#[trigger] parts[i]).contains(text);
        assert(singles.contains(singles[i]));
        lemma_edits_are_the_single_edits(word, singles[i]);
        lemma_edits_are_the_single_edits(singles[i], text);
        assert(is_single_edit(word, singles[i]) && is_single_edit(singles[i], text));
    }
    if exists|middle: Seq<char>|
        #[trigger] is_single_edit(word, middle) && is_single_edit(middle, text) {
        let middle = choose|middle: Seq<char>|
            #[trigger] is_single_edit(word, middle) && is_single_edit(middle, text);
        lemma_edits_are_the_single_edits(word, middle);
        lemma_edits_are_the_single_edits(middle, text);
        let i = choose|i: int| 0 <= i < singles.len() && singles[i] == middle;
        assert(parts[i].contains(text));
    }
}

/// A word one slip away from a dictionary word is known itself, or is corrected to a
/// word that is at least as frequent as that one.
pub proof fn lemma_one_slip_is_corrected(
    word: Seq<char>,
    key: Seq<char>,
    dictionary: Dictionary,
    outcome: Outcome,
)
    requires
        dictionary.wf(),
        dictionary@.contains_key(key),
        is_slip(key, word),
        is_correction(word, dictionary@, outcome),
    ensures
        outcome is Exact || (outcome is Corrected && weight(dictionary@, outcome->0)
            >= dictionary@[key]),
{
    lemma_slip_is_undone(key, word);
    lemma_single_edit_away(word, key, dictionary, outcome);
}

/// A word two slips away from a dictionary word is never `NoMatch`: it is known itself
/// or it is corrected.
pub proof fn lemma_two_slips_are_corrected(
    word: Seq<char>,
    middle: Seq<char>,
    key: Seq<char>,
    dictionary: Dictionary,
    outcome: Outcome,
)
    requires
        dictionary.wf(),
        dictionary@.contains_key(key),
        is_slip(key, middle),
        is_slip(middle, word),
        is_correction(word, dictionary@, outcome),
    ensures
        outcome !is NoMatch,
{
    lemma_fold_fixes_words(key);
    lemma_slip_is_undone(key, middle);
    let q = lemma_slip_keeps_letters(key, middle);
    lemma_slip_is_undone_but_at(middle, word, q);
    if is_single_edit(word, middle) {
        lemma_second_edits_are_the_double_edits(word, key);
        lemma_no_match_means_nothing_near(word, dictionary, outcome);
        let doubles = second_edits_of(word);
        let i = choose|i: int| 0 <= i < doubles.len() && doubles[i] == key;
        assert(dictionary@.contains_key(fold(doubles[i])));
    } else {
        // The second slip fell on the character that the first one brought in: the word
        // is the key, or one slip away from it.
        assert(word == key || is_slip(key, word)) by {
            if q < key.len() && exists|c: char| middle == #[trigger] key.update(q, c) {
                if word == middle.remove(q) {
                    assert(word =~= key.remove(q));
                } else {
                    let d = choose|d: char| word == #[trigger] middle.update(q, d);
                    assert(word =~= key.update(q, d));
                }
            } else {
                if word == middle.remove(q) {
                    assert(word =~= key);
                } else {
                    let d = choose|d: char| word == #[trigger] middle.update(q, d);
                    assert(word =~= key.insert(q, d));
                }
            }
        }
        if word != key {
            lemma_one_slip_is_corrected(word, key, dictionary, outcome);
        }
    }
}


/// A dictionary word among the single edits of an unknown word is a match, and the
/// correction is at least as frequent.
proof fn lemma_single_edit_away(
    word: Seq<char>,
    key: Seq<char>,
    dictionary: Dictionary,
    outcome: Outcome,
)
    requires
        dictionary.wf(),
        dictionary@.contains_key(key),
        is_single_edit(word, key),
        is_correction(word, dictionary@, outcome),
    ensures
        outcome is Exact || (outcome is Corrected && weight(dictionary@, outcome->0)
            >= dictionary@[key]),
{
    if !dictionary@.contains_key(fold(word)) {
        lemma_fold_fixes_words(key);
        lemma_edits_are_the_single_edits(word, key);
        let i = choose|i: int| 0 <= i < edits_of(word).len() && edits_of(word)[i] == key;
        lemma_single_edits_come_first(word, dictionary, outcome, i);
    }
}
} // verus!
