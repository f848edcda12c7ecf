//! The single edits of a string: deletions, transpositions of neighbours, replacements
//! and insertions.

use vstd::prelude::*;
use vstd::string::*;
use crate::letters::{is_lower_letter, letter_at, nth_letter, ALPHABET_LEN};

verus! {

/// `left` followed by `right` without its first character.
pub open spec fn deletion(left: Seq<char>, right: Seq<char>) -> Seq<char> {
    left + right.skip(1)
}

/// `left` followed by `right` with its first two characters swapped.
pub open spec fn transposition(left: Seq<char>, right: Seq<char>) -> Seq<char> {
    left.push(right[1]).push(right[0]) + right.skip(2)
}

/// `left`, then `c` in place of the first character of `right`, then the rest of `right`.
pub open spec fn replacement(left: Seq<char>, c: char, right: Seq<char>) -> Seq<char> {
    left.push(c) + right.skip(1)
}

/// `left`, then `c`, then all of `right`.
pub open spec fn insertion(left: Seq<char>, c: char, right: Seq<char>) -> Seq<char> {
    left.push(c) + right
}

/// The edits at one split that bring in a letter, in the order they are made: for each
/// letter from `a` to `z` its replacement, if `right` has a character to replace, and
/// then its insertion.
pub open spec fn letter_edits(left: Seq<char>, right: Seq<char>) -> Seq<Seq<char>> {
    if right.len() > 0 {
        Seq::new(
            2 * ALPHABET_LEN as nat,
            |i: int|
                if i % 2 == 0 {
                    replacement(left, letter_at(i / 2), right)
                } else {
                    insertion(left, letter_at(i / 2), right)
                },
        )
    } else {
        Seq::new(ALPHABET_LEN as nat, |i: int| insertion(left, letter_at(i), right))
    }
}

/// All edits at the split of a string into `left` and `right`, in the order they are
/// made: the deletion if `right` is not empty, the transposition if `right` has two
/// characters or more, then the letter edits.
pub open spec fn edits_at(left: Seq<char>, right: Seq<char>) -> Seq<Seq<char>> {
    let deleted = if right.len() > 0 {
        seq![deletion(left, right)]
    } else {
        Seq::empty()
    };
    let transposed = if right.len() > 1 {
        seq![transposition(left, right)]
    } else {
        Seq::empty()
    };
    deleted + transposed + letter_edits(left, right)
}

/// The edits at each of `splits` in turn, as one sequence.
pub open spec fn edits_of_splits(splits: Seq<(Seq<char>, Seq<char>)>) -> Seq<Seq<char>> {
    splits.map_values(|split: (Seq<char>, Seq<char>)| edits_at(split.0, split.1)).flatten()
}

/// The `s.len() + 1` ways to cut `s` in two, by the length of the left part.
pub open spec fn splits_of(s: Seq<char>) -> Seq<(Seq<char>, Seq<char>)> {
    Seq::new(s.len() + 1, |i: int| (s.take(i), s.skip(i)))
}

/// Every string one edit away from `s`, in the order of generation; a string that
/// several edits produce occurs once for each.
pub open spec fn edits_of(s: Seq<char>) -> Seq<Seq<char>> {
    edits_of_splits(splits_of(s))
}

/// `s` with the characters at positions `p` and `p + 1` swapped.
pub open spec fn swapped(s: Seq<char>, p: int) -> Seq<char> {
    s.update(p, s[p + 1]).update(p + 1, s[p])
}

/// Whether `text` is `s` with one character deleted, two neighbours swapped, one
/// character replaced by a lower-case letter, or a lower-case letter inserted.
pub open spec fn is_single_edit(s: Seq<char>, text: Seq<char>) -> bool {
    ||| exists|p: int| 0 <= p < s.len() && text == #[trigger] s.remove(p)
    ||| exists|p: int| 0 <= p < s.len() - 1 && text == #[trigger] swapped(s, p)
    ||| exists|p: int, c: char|
        0 <= p < s.len() && is_lower_letter(c) && text == #[trigger] s.update(p, c)
    ||| exists|p: int, c: char|
        0 <= p <= s.len() && is_lower_letter(c) && text == #[trigger] s.insert(p, c)
}

/// Whether `word` is `key` with one slip: a character dropped, two neighbours swapped,
/// a character changed or a character added. The changed or added character may be any
/// character.
pub open spec fn is_slip(key: Seq<char>, word: Seq<char>) -> bool {
    ||| exists|p: int| 0 <= p < key.len() && word == #[trigger] key.remove(p)
    ||| exists|p: int| 0 <= p < key.len() - 1 && word == #[trigger] swapped(key, p)
    ||| exists|p: int, c: char| 0 <= p < key.len() && word == #[trigger] key.update(p, c)
    ||| exists|p: int, c: char| 0 <= p <= key.len() && word == #[trigger] key.insert(p, c)
}

/// The number of edits at the first `i` splits of a string of `n` characters.
spec fn edits_before(n: nat, i: nat) -> nat {
    if i < n {
        54 * i
    } else if n == 0 {
        if i == 0 {
            0
        } else {
            26
        }
    } else if i == n {
        (54 * i - 1) as nat
    } else {
        54 * n + 25
    }
}

/// `left` followed by `right`.
fn joined(left: &str, right: &str) -> (text: String)
    ensures
        text@ == left@ + right@,
{
    let mut text = left.to_owned();
    text.append(right);
    text
}

/// `left`, then `c`, then `right`.
fn spliced(left: &str, c: char, right: &str) -> (text: String)
    ensures
        text@ == left@.push(c) + right@,
{
    let mut text = left.to_owned();
    text.push(c);
    text.append(right);
    text
}

/// `left` followed by `right` with its first two characters swapped.
fn transposed(left: &str, right: &str) -> (edit: String)
    requires
        right@.len() > 1,
    ensures
        edit@ == transposition(left@, right@),
{
    let n = right.unicode_len();
    let mut edit = left.to_owned();
    edit.push(right.get_char(1));
    edit.push(right.get_char(0));
    edit.append(right.substring_char(2, n));
    edit
}

/// Appends to `edits` every edit at the split into `left` and `right`.
fn push_edits_at(left: &str, right: &str, edits: &mut Vec<String>)
    ensures
        final(edits).deep_view() == old(edits).deep_view() + edits_at(left@, right@),
{
    let ghost before = edits.deep_view();
    let n = right.unicode_len();
    let rest = if n > 0 {
        right.substring_char(1, n)
    } else {
        right
    };
    if n > 0 {
        edits.push(joined(left, rest));
    }
    if n > 1 {
        edits.push(transposed(left, right));
    }
    let ghost head = edits.deep_view();
    let ghost letters = letter_edits(left@, right@);
    assert(head + letters =~= before + edits_at(left@, right@));
    let mut k: u8 = 0;
    while k < ALPHABET_LEN
        invariant
            k <= ALPHABET_LEN,
            n == right@.len(),
            n > 0 ==> rest@ == right@.skip(1),
            letters == letter_edits(left@, right@),
            edits.deep_view() == head + letters.take(
                if n > 0 {
                    2 * k
                } else {
                    k as int
                },
            ),
        decreases ALPHABET_LEN - k,
    {
        let c = nth_letter(k);
        let ghost so_far = edits.deep_view();
        if n > 0 {
            edits.push(spliced(left, c, rest));
        }
        edits.push(spliced(left, c, right));
        proof {
            let j = k as int;
            if n > 0 {
                assert((2 * j) % 2 == 0 && (2 * j) / 2 == j && (2 * j + 1) % 2 == 1 && (2 * j + 1)
                    / 2 == j);
                assert(letters.take(2 * j + 2) =~= letters.take(2 * j).push(letters[2 * j]).push(
                    letters[2 * j + 1],
                ));
                assert(edits.deep_view() =~= so_far.push(letters[2 * j]).push(letters[2 * j + 1]));
            } else {
                assert(letters.take(j + 1) =~= letters.take(j).push(letters[j]));
                assert(edits.deep_view() =~= so_far.push(letters[j]));
            }
        }
        k += 1;
    }
    assert(letters.take(letters.len() as int) =~= letters);
}

/// Appends to `edits` the edits at each of `splits`, in order.
///
/// Each split is a pair of a left and a right part. What `edits` held before is kept in
/// front, and `splits` is left as it was.
pub fn make_edits(splits: &mut Vec<(&str, &str)>, edits: &mut Vec<String>)
    ensures
        final(splits)@ == old(splits)@,
        final(edits).deep_view() == old(edits).deep_view() + edits_of_splits(
            old(splits).deep_view(),
        ),
{
    let ghost before = edits.deep_view();
    let ghost parts = splits.deep_view();
    let mut i: usize = 0;
    assert(parts.take(0) =~= Seq::empty());
    while i < splits.len()
        invariant
            i <= splits.len(),
            splits@ == old(splits)@,
            parts == splits.deep_view(),
            edits.deep_view() == before + edits_of_splits(parts.take(i as int)),
        decreases splits.len() - i,
    {
        let (left, right) = splits[i];
        push_edits_at(left, right, edits);
        proof {
            lemma_edits_of_splits_push(parts.take(i as int), parts[i as int]);
            assert(parts.take(i + 1) =~= parts.take(i as int).push(parts[i as int]));
        }
        i += 1;
    }
    assert(parts.take(parts.len() as int) =~= parts);
}

/// The ways to cut `seed` in two, from the empty left part to the empty right part.
pub fn splits(seed: &str) -> (parts: Vec<(&str, &str)>)
    ensures
        parts.deep_view() == splits_of(seed@),
{
    let n = seed.unicode_len();
    let mut parts: Vec<(&str, &str)> = Vec::new();
    let mut i: usize = 0;
    while i < n
        invariant
            i <= n,
            n == seed@.len(),
            parts.deep_view() == splits_of(seed@).take(i as int),
        decreases n - i,
    {
        let ghost so_far = parts.deep_view();
        let left = seed.substring_char(0, i);
        let right = seed.substring_char(i, n);
        parts.push((left, right));
        assert(parts.deep_view() =~= so_far.push((left@, right@)));
        assert(splits_of(seed@)[i as int] =~~= (left@, right@));
        assert(parts.deep_view() =~~= splits_of(seed@).take(i + 1));
        i += 1;
    }
    let ghost so_far = parts.deep_view();
    let right = seed.substring_char(n, n);
    parts.push((seed, right));
    assert(parts.deep_view() =~= so_far.push((seed@, right@)));
    assert(splits_of(seed@)[n as int] =~~= (seed@, right@));
    assert(parts.deep_view() =~~= splits_of(seed@));
    parts
}

/// Every string one edit away from `seed`, in the order of generation.
pub fn generate_edits(seed: &str) -> (edits: Vec<String>)
    ensures
        edits.deep_view() == edits_of(seed@),
{
    let mut parts = splits(seed);
    let mut edits: Vec<String> = Vec::new();
    make_edits(&mut parts, &mut edits);
    assert(edits.deep_view() =~= edits_of(seed@));
    edits
}


/// `edits_of_splits` takes the splits one at a time.
pub proof fn lemma_edits_of_splits_push(
    splits: Seq<(Seq<char>, Seq<char>)>,
    split: (Seq<char>, Seq<char>),
)
    ensures
        edits_of_splits(splits.push(split)) == edits_of_splits(splits) + edits_at(
            split.0,
            split.1,
        ),
{
    let each = |split: (Seq<char>, Seq<char>)| edits_at(split.0, split.1);
    assert(splits.push(split).map_values(each) =~= splits.map_values(each).push(each(split)));
    splits.map_values(each).lemma_flatten_push(each(split));
}

/// What several sequences hold when they are put in a row is what one of them holds.
pub proof fn lemma_flatten_contains<A>(parts: Seq<Seq<A>>, a: A)
    ensures
        parts.flatten().contains(a) <==> exists|i: int|
            0 <= i < parts.len() && (#[trigger] parts[i]).contains(a),
    decreases parts.len(),
{
    if parts.len() > 0 {
        let front = parts.drop_last();
        let last = parts.last();
        let before = front.flatten();
        let all = parts.flatten();
        assert(parts =~= front.push(last));
        front.lemma_flatten_push(last);
        lemma_flatten_contains(front, a);
        if all.contains(a) {
            let j = choose|j: int| 0 <= j < all.len() && all[j] == a;
            if j < before.len() {
                assert(before[j] == a);
                let i = choose|i: int| 0 <= i < front.len() && (#[trigger] front[i]).contains(a);
                assert(parts[i] == front[i]);
            } else {
                assert(last[j - before.len()] == a);
                assert(parts[parts.len() - 1].contains(a));
            }
        }
        if exists|i: int| 0 <= i < parts.len() && (#[trigger] parts[i]).contains(a) {
            let i = choose|i: int| 0 <= i < parts.len() && (#[trigger] parts[i]).contains(a);
            if i < front.len() {
                assert(front[i] == parts[i]);
                let j = choose|j: int| 0 <= j < before.len() && before[j] == a;
                assert(all[j] == a);
            } else {
                let j = choose|j: int| 0 <= j < last.len() && last[j] == a;
                assert(all[before.len() + j] == a);
            }
        }
    }
}

/// The single edits of a string are what `edits_of` holds: each way to delete one
/// character, to swap two neighbours, to replace one character by a lower-case letter
/// and to insert a lower-case letter is among the edits, and every edit is one of these.
pub proof fn lemma_edits_are_the_single_edits(s: Seq<char>, text: Seq<char>)
    ensures
        edits_of(s).contains(text) <==> is_single_edit(s, text),
{
    if edits_of(s).contains(text) {
        lemma_edit_is_single_edit(s, text);
    }
    if is_single_edit(s, text) {
        if exists|p: int| 0 <= p < s.len() && text == #[trigger] s.remove(p) {
            let p = choose|p: int| 0 <= p < s.len() && text == #[trigger] s.remove(p);
            lemma_deletion_is_edit(s, p);
        } else if exists|p: int| 0 <= p < s.len() - 1 && text == #[trigger] swapped(s, p) {
            let p = choose|p: int| 0 <= p < s.len() - 1 && text == #[trigger] swapped(s, p);
            lemma_swap_is_edit(s, p);
        } else if exists|p: int, c: char|
            0 <= p < s.len() && is_lower_letter(c) && text == #[trigger] s.update(p, c) {
            let (p, c) = choose|p: int, c: char|
                0 <= p < s.len() && is_lower_letter(c) && text == #[trigger] s.update(p, c);
            lemma_replacement_is_edit(s, p, c);
        } else {
            let (p, c) = choose|p: int, c: char|
                0 <= p <= s.len() && is_lower_letter(c) && text == #[trigger] s.insert(p, c);
            lemma_insertion_is_edit(s, p, c);
        }
    }
}

/// One edit undoes a slip, unless the edit would have to bring back a character that is
/// no lower-case letter. Where every character of `key` but the one at position `q` is
/// a lower-case letter, a slip of `key` is undone by a single edit, or it dropped or
/// changed the character at `q`.
pub proof fn lemma_slip_is_undone_but_at(key: Seq<char>, word: Seq<char>, q: int)
    requires
        is_slip(key, word),
        forall|i: int| 0 <= i < key.len() && i != q ==> is_lower_letter(#[trigger] key[i]),
    ensures
        is_single_edit(word, key) || (0 <= q < key.len() && (word == key.remove(q) || exists|
            c: char,
        |
            word == #[trigger] key.update(q, c))),
{
    if exists|p: int| 0 <= p < key.len() && word == #[trigger] key.remove(p) {
        let p = choose|p: int| 0 <= p < key.len() && word == #[trigger] key.remove(p);
        if p != q {
            assert(key =~= word.insert(p, key[p]));
        }
    } else if exists|p: int| 0 <= p < key.len() - 1 && word == #[trigger] swapped(key, p) {
        let p = choose|p: int| 0 <= p < key.len() - 1 && word == #[trigger] swapped(key, p);
        assert(key =~= swapped(word, p));
    } else if exists|p: int, c: char| 0 <= p < key.len() && word == #[trigger] key.update(p, c) {
        let (p, c) = choose|p: int, c: char|
            0 <= p < key.len() && word == #[trigger] key.update(p, c);
        if p != q {
            assert(key =~= word.update(p, key[p]));
        }
    } else {
        let (p, c) = choose|p: int, c: char|
            0 <= p <= key.len() && word == #[trigger] key.insert(p, c);
        assert(key =~= word.remove(p));
    }
}

/// One edit undoes a slip of a string of lower-case letters: where `word` is `key` with
/// one slip, `key` is a single edit of `word`.
pub proof fn lemma_slip_is_undone(key: Seq<char>, word: Seq<char>)
    requires
        is_slip(key, word),
        forall|i: int| 0 <= i < key.len() ==> is_lower_letter(#[trigger] key[i]),
    ensures
        is_single_edit(word, key),
{
    lemma_slip_is_undone_but_at(key, word, -1);
}

/// A slip of a string of lower-case letters leaves a string of lower-case letters, but
/// for the character that it changed or added: the result is the position of that
/// character, or `-1` where the slip dropped a character or swapped two.
pub proof fn lemma_slip_keeps_letters(key: Seq<char>, word: Seq<char>) -> (q: int)
    requires
        is_slip(key, word),
        forall|i: int| 0 <= i < key.len() ==> is_lower_letter(#[trigger] key[i]),
    ensures
        forall|i: int| 0 <= i < word.len() && i != q ==> is_lower_letter(#[trigger] word[i]),
        q == -1 || (0 <= q < word.len() && {
            ||| q < key.len() && exists|c: char| word == #[trigger] key.update(q, c)
            ||| exists|c: char| word == #[trigger] key.insert(q, c)
        }),
{
    if exists|p: int, c: char| 0 <= p < key.len() && word == #[trigger] key.update(p, c) {
        let (p, c) = choose|p: int, c: char|
            0 <= p < key.len() && word == #[trigger] key.update(p, c);
        p
    } else if exists|p: int, c: char| 0 <= p <= key.len() && word == #[trigger] key.insert(p, c) {
        let (p, c) = choose|p: int, c: char|
            0 <= p <= key.len() && word == #[trigger] key.insert(p, c);
        p
    } else if exists|p: int| 0 <= p < key.len() && word == #[trigger] key.remove(p) {
        -1
    } else {
        let p = choose|p: int| 0 <= p < key.len() - 1 && word == #[trigger] swapped(key, p);
        -1
    }
}

/// The number of edits at one split: a deletion unless `right` is empty, a transposition
/// if `right` has two characters or more, a replacement by each letter unless `right` is
/// empty, and an insertion of each letter.
pub proof fn lemma_edits_at_len(left: Seq<char>, right: Seq<char>)
    ensures
        edits_at(left, right).len() == if right.len() == 0 {
            26nat
        } else if right.len() == 1 {
            53nat
        } else {
            54nat
        },
{
}

/// A string of `n` characters has 26 single edits if it is empty and `54 * n + 25`
/// otherwise: `n` deletions, `n - 1` transpositions, `26 * n` replacements and
/// `26 * (n + 1)` insertions.
pub proof fn lemma_edits_len(s: Seq<char>)
    ensures
        edits_of(s).len() == if s.len() == 0 {
            26
        } else {
            54 * s.len() + 25
        },
{
    lemma_edits_before(s, s.len() + 1);
    assert(splits_of(s).take(s.len() as int + 1) =~= splits_of(s));
}

/// The edits at all of `splits` hold what the edits at one of them hold.
proof fn lemma_edits_of_splits_contain(splits: Seq<(Seq<char>, Seq<char>)>, text: Seq<char>)
    ensures
        edits_of_splits(splits).contains(text) <==> exists|i: int|
            0 <= i < splits.len() && edits_at(
                (#[trigger] splits[i]).0,
                splits[i].1,
            ).contains(text),
{
    let each = |split: (Seq<char>, Seq<char>)| edits_at(split.0, split.1);
    let parts = splits.map_values(each);
    lemma_flatten_contains(parts, text);
    if edits_of_splits(splits).contains(text) {
        let i = choose|i: int| 0 <= i < parts.len() && (#[trigger] parts[i]).contains(text);
        assert(edits_at(splits[i].0, splits[i].1).contains(text));
    }
    if exists|i: int|
        0 <= i < splits.len() && edits_at((#[trigger] splits[i]).0, splits[i].1).contains(text) {
        let i = choose|i: int|
            0 <= i < splits.len() && edits_at((#[trigger] splits[i]).0, splits[i].1).contains(
                text,
            );
        assert(parts[i].contains(text));
    }
}

/// Every lower-case letter has its place in the alphabet.
proof fn lemma_letter_place(c: char) -> (k: int)
    requires
        is_lower_letter(c),
    ensures
        0 <= k < ALPHABET_LEN,
        letter_at(k) == c,
{
    c as int - 'a' as int
}

/// The edits at one split, one by one.
proof fn lemma_edits_at_index(left: Seq<char>, right: Seq<char>, j: int)
    requires
        0 <= j < edits_at(left, right).len(),
    ensures
        right.len() == 0 ==> edits_at(left, right)[j] == insertion(left, letter_at(j), right),
        right.len() > 0 && j == 0 ==> edits_at(left, right)[j] == deletion(left, right),
        right.len() > 1 && j == 1 ==> edits_at(left, right)[j] == transposition(left, right),
        right.len() == 1 && j >= 1 ==> edits_at(left, right)[j] == letter_edits(left, right)[j
            - 1],
        right.len() > 1 && j >= 2 ==> edits_at(left, right)[j] == letter_edits(left, right)[j
            - 2],
{
}

/// An edit at a split of `s` is an edit of `s`.
proof fn lemma_edit_at_split(s: Seq<char>, p: int, j: int)
    requires
        0 <= p <= s.len(),
        0 <= j < edits_at(s.take(p), s.skip(p)).len(),
    ensures
        edits_of(s).contains(edits_at(s.take(p), s.skip(p))[j]),
{
    let parts = splits_of(s);
    let here = edits_at(s.take(p), s.skip(p));
    assert(parts[p] == (s.take(p), s.skip(p)));
    assert(edits_at(parts[p].0, parts[p].1).contains(here[j]));
    lemma_edits_of_splits_contain(parts, here[j]);
}

/// `s` without the character at position `p` is an edit of `s`.
proof fn lemma_deletion_is_edit(s: Seq<char>, p: int)
    requires
        0 <= p < s.len(),
    ensures
        edits_of(s).contains(s.remove(p)),
{
    lemma_edit_at_split(s, p, 0);
    assert(edits_at(s.take(p), s.skip(p))[0] =~= s.remove(p));
}

/// `s` with the characters at positions `p` and `p + 1` swapped is an edit of `s`.
proof fn lemma_swap_is_edit(s: Seq<char>, p: int)
    requires
        0 <= p < s.len() - 1,
    ensures
        edits_of(s).contains(swapped(s, p)),
{
    lemma_edit_at_split(s, p, 1);
    assert(edits_at(s.take(p), s.skip(p))[1] =~= swapped(s, p));
}

/// `s` with a lower-case letter in place of the character at position `p` is an edit
/// of `s`.
proof fn lemma_replacement_is_edit(s: Seq<char>, p: int, c: char)
    requires
        0 <= p < s.len(),
        is_lower_letter(c),
    ensures
        edits_of(s).contains(s.update(p, c)),
{
    let k = lemma_letter_place(c);
    let left = s.take(p);
    let right = s.skip(p);
    let j = if right.len() > 1 {
        2 + 2 * k
    } else {
        1 + 2 * k
    };
    assert((2 * k) % 2 == 0 && (2 * k) / 2 == k);
    lemma_edits_at_len(left, right);
    lemma_edits_at_index(left, right, j);
    assert(letter_edits(left, right)[2 * k] == replacement(left, c, right));
    assert(replacement(left, c, right) =~= s.update(p, c));
    lemma_edit_at_split(s, p, j);
}

/// `s` with a lower-case letter put in at position `p` is an edit of `s`.
proof fn lemma_insertion_is_edit(s: Seq<char>, p: int, c: char)
    requires
        0 <= p <= s.len(),
        is_lower_letter(c),
    ensures
        edits_of(s).contains(s.insert(p, c)),
{
    let k = lemma_letter_place(c);
    let left = s.take(p);
    let right = s.skip(p);
    let j = if right.len() > 1 {
        3 + 2 * k
    } else if right.len() == 1 {
        2 + 2 * k
    } else {
        k
    };
    assert((2 * k + 1) % 2 == 1 && (2 * k + 1) / 2 == k);
    lemma_edits_at_len(left, right);
    lemma_edits_at_index(left, right, j);
    assert(insertion(left, c, right) =~= s.insert(p, c));
    if right.len() > 0 {
        assert(letter_edits(left, right)[2 * k + 1] == insertion(left, c, right));
    } else {
        assert(letter_edits(left, right)[k] == insertion(left, c, right));
    }
    lemma_edit_at_split(s, p, j);
}

/// An edit of `s` deletes, swaps, replaces or inserts.
proof fn lemma_edit_is_single_edit(s: Seq<char>, text: Seq<char>)
    requires
        edits_of(s).contains(text),
    ensures
        is_single_edit(s, text),
{
    let parts = splits_of(s);
    lemma_edits_of_splits_contain(parts, text);
    let p = choose|p: int|
        0 <= p < parts.len() && edits_at((#[trigger] parts[p]).0, parts[p].1).contains(text);
    let left = s.take(p);
    let right = s.skip(p);
    let here = edits_at(left, right);
    let j = choose|j: int| 0 <= j < here.len() && here[j] == text;
    lemma_edits_at_len(left, right);
    lemma_edits_at_index(left, right, j);
    if right.len() == 0 {
        assert(text =~= s.insert(p, letter_at(j)));
    } else if j == 0 {
        assert(text =~= s.remove(p));
    } else if right.len() > 1 && j == 1 {
        assert(text =~= swapped(s, p));
    } else {
        let i = if right.len() > 1 {
            j - 2
        } else {
            j - 1
        };
        assert(text == letter_edits(left, right)[i]);
        if i % 2 == 0 {
            assert(text =~= s.update(p, letter_at(i / 2)));
        } else {
            assert(text =~= s.insert(p, letter_at(i / 2)));
        }
    }
}

/// The edits at the first `i` splits of `s` number `edits_before(s.len(), i)`.
proof fn lemma_edits_before(s: Seq<char>, i: nat)
    requires
        i <= s.len() + 1,
    ensures
        edits_of_splits(splits_of(s).take(i as int)).len() == edits_before(s.len(), i),
    decreases i,
{
    let parts = splits_of(s);
    if i == 0 {
        assert(parts.take(0).map_values(
            |split: (Seq<char>, Seq<char>)| edits_at(split.0, split.1),
        ) =~= Seq::empty());
    } else {
        lemma_edits_before(s, (i - 1) as nat);
        assert(parts.take(i as int) =~= parts.take(i - 1).push(parts[i - 1]));
        lemma_edits_of_splits_push(parts.take(i - 1), parts[i - 1]);
        lemma_edits_at_len(parts[i - 1].0, parts[i - 1].1);
    }
}
} // verus!
