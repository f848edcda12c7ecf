//! Letters, case folding and the shape of dictionary words.

use vstd::prelude::*;
use vstd::string::*;

verus! {

/// The number of letters in the alphabet that edits draw from.
pub const ALPHABET_LEN: u8 = 26;

/// Whether `c` is one of the 52 ASCII letters.
pub open spec fn is_letter(c: char) -> bool {
    ('a' <= c && c <= 'z') || ('A' <= c && c <= 'Z')
}

/// Whether `c` is one of the 26 lower-case ASCII letters.
pub open spec fn is_lower_letter(c: char) -> bool {
    'a' <= c && c <= 'z'
}

/// `c` with `A`-`Z` mapped to `a`-`z`; every other character is its own image.
pub open spec fn fold_char(c: char) -> char {
    if 'A' <= c && c <= 'Z' {
        (c as int + 32) as char
    } else {
        c
    }
}

/// `s` with every character case-folded.
pub open spec fn fold(s: Seq<char>) -> Seq<char> {
    Seq::new(s.len(), |i: int| fold_char(s[i]))
}

/// The shape of a dictionary key: not empty, lower-case letters only.
pub open spec fn is_word(s: Seq<char>) -> bool {
    &&& s.len() > 0
    &&& forall|i: int| 0 <= i < s.len() ==> is_lower_letter(#[trigger] s[i])
}

/// The `k`-th letter of the alphabet, counting `a` as letter 0.
pub open spec fn letter_at(k: int) -> char {
    ('a' as int + k) as char
}

/// `String::push` of the standard library appends `c` to the end of the string: the
/// characters of the string afterwards are those it had, followed by `c`. Verus takes
/// this on trust.
pub assume_specification[ String::push ](s: &mut String, c: char)
    ensures
        final(s)@ == old(s)@.push(c),
;

/// Whether `c` is a letter.
pub fn letter(c: char) -> (r: bool)
    ensures
        r == is_letter(c),
{
    ('a' <= c && c <= 'z') || ('A' <= c && c <= 'Z')
}

/// `c` case-folded.
pub fn to_lower(c: char) -> (r: char)
    ensures
        r == fold_char(c),
        is_letter(c) ==> is_lower_letter(r),
        !is_letter(c) ==> r == c,
{
    if 'A' <= c && c <= 'Z' {
        let code: u8 = c as u8;
        (code + 32) as char
    } else {
        c
    }
}

/// The `k`-th letter of the alphabet, counting `a` as letter 0.
pub fn nth_letter(k: u8) -> (c: char)
    requires
        k < ALPHABET_LEN,
    ensures
        c == letter_at(k as int),
        is_lower_letter(c),
{
    (97u8 + k) as char
}

/// The case-folded copy of `s`.
pub fn lowercase(s: &str) -> (r: String)
    ensures
        r@ == fold(s@),
{
    broadcast use group_string_axioms;

    let mut r = String::new();
    for c in it: s.chars()
        invariant
            it.seq() == s@,
            r@ == fold(s@.take(it.index() as int)),
    {
        r.push(to_lower(c));
        assert(r@ =~= fold(s@.take(it.index() + 1)));
    }
    assert(s@.take(s@.len() as int) =~= s@);
    r
}

/// A dictionary word is its own case-folded form.
pub proof fn lemma_fold_fixes_words(s: Seq<char>)
    requires
        is_word(s),
    ensures
        fold(s) == s,
{
    assert(fold(s) =~= s);
}

} // verus!
