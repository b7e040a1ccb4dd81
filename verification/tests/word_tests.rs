use sce::word::parse;

#[test]
fn word_basic() {
    let input = String::from("abc");
    let graphs = vec![];
    let separator = String::from("'");

    let word = parse(&input, graphs, separator);

    assert_eq!(
        word.phones,
        vec![
            String::from("#"),
            String::from("a"),
            String::from("b"),
            String::from("c"),
            String::from("#")
        ]
    );
}

#[test]
fn unnecessary_separator() {
    let input = String::from("a'bc");
    let graphs = vec![];
    let separator = String::from("'");

    let word = parse(&input, graphs, separator);

    assert_eq!(
        word.phones,
        vec![
            String::from("#"),
            String::from("a"),
            String::from("b"),
            String::from("c"),
            String::from("#")
        ]
    );

    assert_eq!(word.render(), "abc".to_string());
}

#[test]
fn polygraphs() {
    let input: String = "atshu".into();
    let graphs = vec!["sh".into(), "ts".into(), "tsh".into()];
    let separator = String::from("'");

    let word = parse(&input, graphs, separator);

    assert_eq!(
        word.phones,
        vec![
            String::from("#"),
            String::from("a"),
            String::from("tsh"),
            String::from("u"),
            String::from("#")
        ]
    );

    assert_eq!(word.render(), input);

    let input: String = "ats'hu".into();
    let graphs = vec!["sh".into(), "ts".into(), "tsh".into()];
    let separator = String::from("'");

    let word = parse(&input, graphs, separator);

    assert_eq!(
        word.phones,
        vec![
            String::from("#"),
            String::from("a"),
            String::from("ts"),
            String::from("h"),
            String::from("u"),
            String::from("#")
        ]
    );

    assert_eq!(word.render(), input);
}

#[test]
fn internal_whitespace() {
    let input: String = "a  b".into();

    let word = parse(&input, vec![], String::from("'"));

    assert_eq!(
        word.phones,
        vec![
            String::from("#"),
            String::from("a"),
            String::from("#"),
            String::from("b"),
            String::from("#")
        ]
    );
}

#[test]
fn empty_input() {
    let word = parse(&String::new(), vec![], String::from("'"));
    assert_eq!(word.phones, vec![String::from("#"), String::from("#")]);
    assert_eq!(word.render(), String::new());
}

#[test]
fn round_trip_idempotent() {
    // one rendering pass normalizes a word for good
    let cases = ["abc", "a'bc", "a  b", "atshu", "ats'hu", ""];
    for input in cases {
        let graphs: Vec<String> = vec!["sh".into(), "ts".into(), "tsh".into()];
        let first = parse(&input.to_string(), graphs.clone(), String::from("'"));
        let rendered = first.render();
        let second = parse(&rendered, graphs, String::from("'"));
        assert_eq!(second.phones, first.phones);
        assert_eq!(second.render(), rendered);
    }
}

#[test]
fn separator_reinserted_only_on_ambiguity() {
    // with single-character graphemes a separator in the input is discarded
    // and never re-inserted
    let graphs: Vec<String> = vec!["a".into(), "b".into()];
    let word = parse(&String::from("a'b"), graphs, String::from("'"));
    assert_eq!(word.render(), "ab".to_string());
}

#[test]
fn into_phones_longest_match() {
    let graphs: Vec<String> = vec!["tsh".into(), "ts".into(), "sh".into()];
    let phones = sce::word::into_phones("atshu".to_string(), &graphs, &String::from("'"));
    assert_eq!(
        phones,
        vec![String::from("a"), String::from("tsh"), String::from("u")]
    );
}
