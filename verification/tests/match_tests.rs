use sce::parse::{pattern, Pattern, PatternElement};
use sce::word::{Match, SingleMatch, Word};

fn abc_word() -> Word {
    Word {
        phones: vec![
            String::from("#"),
            String::from("a"),
            String::from("b"),
            String::from("c"),
            String::from("#"),
        ],
        graphs: vec![],
        separator: String::from("'"),
    }
}

#[test]
fn text() {
    let word = abc_word();

    let (parsed, consumed) = pattern("abc", 0);
    assert_eq!(consumed, 3);

    let matches = word.match_one(&parsed, 1).unwrap();

    assert_eq!(
        matches,
        vec![
            Match::Single(SingleMatch {
                range: 1..2,
                element: PatternElement::Text(String::from("a")),
            }),
            Match::Single(SingleMatch {
                range: 2..3,
                element: PatternElement::Text(String::from("b")),
            }),
            Match::Single(SingleMatch {
                range: 3..4,
                element: PatternElement::Text(String::from("c")),
            }),
        ]
    );
}

#[test]
fn text_mismatch() {
    let word = abc_word();
    let (parsed, _) = pattern("ax", 0);
    assert_eq!(word.match_one(&parsed, 1), None);
}

#[test]
fn match_out_of_range() {
    // a pattern longer than the remaining word simply fails
    let word = abc_word();
    let (parsed, _) = pattern("abc", 0);
    assert_eq!(word.match_one(&parsed, 4), None);
    assert_eq!(word.match_one(&parsed, 9), None);
}

#[test]
fn ditto_succeeds_on_repeated_token() {
    let word = Word {
        phones: vec![
            String::from("#"),
            String::from("a"),
            String::from("a"),
            String::from("b"),
            String::from("#"),
        ],
        graphs: vec![],
        separator: String::from("'"),
    };
    let p = Pattern {
        elements: vec![
            PatternElement::Text(String::from("a")),
            PatternElement::Ditto,
        ],
    };
    let matches = word.match_one(&p, 1).unwrap();
    assert_eq!(
        matches,
        vec![
            Match::Single(SingleMatch {
                range: 1..2,
                element: PatternElement::Text(String::from("a")),
            }),
            Match::Single(SingleMatch {
                range: 2..3,
                element: PatternElement::Ditto,
            }),
        ]
    );
}

#[test]
fn ditto_fails_on_differing_token() {
    let word = Word {
        phones: vec![
            String::from("#"),
            String::from("a"),
            String::from("a"),
            String::from("b"),
            String::from("#"),
        ],
        graphs: vec![],
        separator: String::from("'"),
    };
    let p = Pattern {
        elements: vec![
            PatternElement::Text(String::from("a")),
            PatternElement::Ditto,
        ],
    };
    // at index 2 the ditto compares `b` with `a` and fails
    assert_eq!(word.match_one(&p, 2), None);
}

#[test]
fn ditto_fails_first_in_pattern() {
    let word = abc_word();
    let p = Pattern {
        elements: vec![PatternElement::Ditto],
    };
    assert_eq!(word.match_one(&p, 2), None);
}

#[test]
fn literal_retokenized_with_polygraphs() {
    // a literal is re-tokenized with the word's own inventory before matching
    let word = Word {
        phones: vec![
            String::from("#"),
            String::from("a"),
            String::from("tsh"),
            String::from("u"),
            String::from("#"),
        ],
        graphs: vec![String::from("tsh"), String::from("ts"), String::from("sh")],
        separator: String::from("'"),
    };
    let (parsed, _) = pattern("atshu", 0);
    let matches = word.match_one(&parsed, 1).unwrap();
    assert_eq!(matches.len(), 3);
    assert_eq!(
        matches[1],
        Match::Single(SingleMatch {
            range: 2..3,
            element: PatternElement::Text(String::from("tsh")),
        })
    );
}
