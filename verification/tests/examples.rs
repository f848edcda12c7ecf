use spelling_corrector::correction::{correct, render};
use spelling_corrector::dictionary::Dictionary;
use spelling_corrector::training::train;

/// A training text, a word, and the line that reports the word.
const EXAMPLES: &[(&str, &str, &str)] = &[
    ("d, b, b'", "b", "b"),
    ("X-caYd dd\nX\ncaYd'X-aY, dd1 deda-deda\ncaYd1 ", "aY", "aY"),
    ("cccac'ab1 ca\nca, ab, cccac, ba'bb-cccac'ba, c, ab-bb, ca, ", "Z-", "Z-, ab"),
    ("acYdY-ac-bXdb-Yad\nX-Xeddb1 Yad adde acYdY adde\nac1 Yad, bXdb, ", "ZY", "ZY, ac"),
    ("aaa-c\nccaa1 c c aa-aa'", "cZa", "cZa, c"),
    ("X X1 d\n", "c-", "c-, x"),
    ("dX'c, caXa b-ddX\ncaXa1 ddX1 ddX, b1 caXa'b ", "YdXX", "YdXX, ddX"),
    ("aa, cb'cbb'acb bb1 aa-bb1 caac-aa, caac-bb'", "Zca", "Zca, aa"),
    ("ddb'c, ddb1 aY-c\n", "eddc", "eddc, ddb"),
    ("cca, acba-acba acba'cca'", "cZ", "cZ, cca"),
    ("bccba'bba, bccba, abcc'abcc1 a\nbba, bccba c'a c, a-", "a--", "a--, a"),
    ("bc-bc1 babc-a1 babc'bb-c\nbabb ccaa1 babb-babb\nbabc, bc-c-a'c, ", "Zqb", "Zqb, bb"),
    ("caaa-aacc'acb caaa-acb1 caaa1 aacc'acb, aacc ", "bcZ", "bcZ, acb"),
    ("abbca-abbca, ba, ba\nba1 ba a1 ", "aa", "aa, ba"),
    ("cccac'ab1 ca\nca, ab, cccac, ba'bb-cccac'ba, c, ab-bb, ca, ", "b", "b, ab"),
    ("c-cbbca-cb cb\n", "-", "-, c"),
    ("dce\nad ad\nad1 dce\n", "", ", ad"),
    ("bc-bc1 babc-a1 babc'bb-c\nbabb ccaa1 babb-babb\nbabc, bc-c-a'c, ", "", ", c"),
    ("Xaad\nXaad'c1 bec'cXbaX'c'Xaad-", "e-dX", "e-dX, -"),
    ("ca'ccc1 cb'ca\ncb ca'cacb, cb1 ", "aZ-Z", "aZ-Z, -"),
    ("ab-a\na\na\nabbcc-a\naa'abbcc a'a-bbcca abbcc1 ab1 ", "Z-c-q", "Z-c-q, -"),
    ("c dbbXe dbbXe\nc-XXaXa ", "YbZYb", "YbZYb, -"),
    ("aYbdX1 aebd, cYYYd XXa1 edXY\ncYYYd1 XXa1 d, aebd, XXa d1 ce-cYYYd ", "bYb", "bYb, -"),
    ("cbea cbea, cac'cac\n", "Z-", "Z-, -"),
];

#[test]
fn reports_for_small_alphabets() {
    for (text, word, line) in EXAMPLES {
        let lines: Vec<String> = text.lines().map(String::from).collect();
        let mut dictionary = Dictionary::new();
        train(&lines, &mut dictionary);
        assert_eq!(render(word, &correct(word, &dictionary)), *line, "trained on {:?}", text);
    }
}
