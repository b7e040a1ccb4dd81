use sce::common::Wildcard;
use sce::parse::{
    ast, ast_element, cat_edit, cat_or_els, escape, pattern, pattern_element, text, ASTElement,
    CatOrEl, CategoryEditKind, PatternElement, Span,
};

fn parse_text_all(input: &str) -> Option<String> {
    match text(input, 0) {
        Some((t, p)) if p == input.chars().count() => Some(t),
        _ => None,
    }
}

fn statements(input: &str) -> Vec<ASTElement> {
    let (tree, _) = ast(input);
    tree.elements.into_iter().map(|(e, _)| e).collect()
}

#[test]
fn escape_basic() {
    assert_eq!(escape("\\[", 0), Some(('[', 2)));
}

#[test]
fn parse_basic() {
    let passing_cases = [("abc", "abc"), ("\\[a\\]", "[a]")];

    for (input, expected) in passing_cases {
        assert_eq!(parse_text_all(input), Some(String::from(expected)));
    }

    let failing_cases = ["\\", "\\n", "a "];

    for input in failing_cases {
        assert_eq!(parse_text_all(input), None);
    }
}

#[test]
fn cat_or_els_test() {
    assert_eq!(
        cat_or_els("a,b,[c]", 0),
        Some((
            vec![
                CatOrEl::El(String::from("a")),
                CatOrEl::El(String::from("b")),
                CatOrEl::Cat(String::from("c"))
            ],
            7
        ))
    );
}

#[test]
fn pattern_basic() {
    let cases = [
        ("a", vec![PatternElement::Text(String::from("a"))]),
        ("*", vec![PatternElement::Wildcard(Wildcard::Greedy)]),
    ];

    for (input, expected) in cases {
        let (parsed, consumed) = pattern(input, 0);
        assert_eq!(consumed, input.chars().count());
        assert_eq!(parsed.elements, expected);
    }
}

#[test]
fn pattern_test() {
    let cases = [
        ("a", vec![PatternElement::Text(String::from("a"))]),
        ("*", vec![PatternElement::Wildcard(Wildcard::Greedy)]),
    ];

    for (input, expected) in cases {
        let (parsed, consumed) = pattern(input, 0);
        assert_eq!(consumed, input.chars().count());
        assert_eq!(parsed.elements, expected);
    }
}

#[test]
fn wildcard_spellings() {
    let cases = [
        ("**?", PatternElement::Wildcard(Wildcard::NonGreedyExtended)),
        ("**", PatternElement::Wildcard(Wildcard::GreedyExtended)),
        ("*?", PatternElement::Wildcard(Wildcard::NonGreedy)),
        ("*", PatternElement::Wildcard(Wildcard::Greedy)),
    ];
    for (input, expected) in cases {
        let n = input.chars().count();
        assert_eq!(pattern_element(input, 0), Some((expected, n)));
    }
}

#[test]
fn repeats_and_groups() {
    assert_eq!(pattern_element("{3}", 0), Some((PatternElement::RepeatN(3), 3)));
    assert_eq!(
        pattern_element("{*}", 0),
        Some((PatternElement::RepeatWild(Wildcard::Greedy), 3))
    );
    assert_eq!(pattern_element("%", 0), Some((PatternElement::Target, 1)));
    assert_eq!(pattern_element("\"", 0), Some((PatternElement::Ditto, 1)));
    assert_eq!(pattern_element("<", 0), Some((PatternElement::TargetReversed, 1)));
    assert_eq!(pattern_element("[]", 0), Some((PatternElement::Category(vec![]), 2)));
    assert_eq!(
        pattern_element("[X]", 0),
        Some((PatternElement::CatRef(String::from("X")), 3))
    );
    assert_eq!(
        pattern_element("[a,b]", 0),
        Some((
            PatternElement::Category(vec![
                CatOrEl::El(String::from("a")),
                CatOrEl::El(String::from("b"))
            ]),
            5
        ))
    );
    // a repeat count too large for the host fails to parse
    assert_eq!(pattern_element("{99999999999999999999999}", 0), None);
}

#[test]
fn optional_groups() {
    let (inner, n) = pattern("(ab)?", 0);
    assert_eq!(n, 5);
    assert_eq!(inner.elements.len(), 1);
    match &inner.elements[0] {
        PatternElement::OptionalNonGreedy(p) => {
            assert_eq!(p.elements, vec![PatternElement::Text(String::from("ab"))]);
        }
        other => panic!("expected a non-greedy optional, got {:?}", other),
    }

    let (inner, n) = pattern("(ab)", 0);
    assert_eq!(n, 4);
    match &inner.elements[0] {
        PatternElement::Optional(p) => {
            assert_eq!(p.elements, vec![PatternElement::Text(String::from("ab"))]);
        }
        other => panic!("expected a greedy optional, got {:?}", other),
    }
}

#[test]
fn cat_edit_forms() {
    let (edit, n) = cat_edit("V += a,b", 0).unwrap();
    assert_eq!(n, 8);
    assert_eq!(edit.target, String::from("V"));
    assert!(matches!(edit.kind, CategoryEditKind::Add));
    assert_eq!(
        edit.elements,
        vec![CatOrEl::El(String::from("a")), CatOrEl::El(String::from("b"))]
    );

    let (edit, _) = cat_edit("V = x", 0).unwrap();
    assert!(matches!(edit.kind, CategoryEditKind::Def));
    let (edit, _) = cat_edit("V -= x", 0).unwrap();
    assert!(matches!(edit.kind, CategoryEditKind::Sub));
}

#[test]
fn rule_with_positions() {
    let (element, n) = ast_element("ab@1|-2 > c", 0).unwrap();
    assert_eq!(n, 11);
    match element {
        ASTElement::Rule(r) => {
            assert_eq!(
                r.target.pattern.elements,
                vec![PatternElement::Text(String::from("ab"))]
            );
            assert_eq!(r.target.positions, vec![1isize, -2isize]);
            assert_eq!(r.predicates.len(), 1);
        }
        other => panic!("expected a rule, got {:?}", other),
    }
}

#[test]
fn rule_with_environment_and_exception() {
    let (element, _) = ast_element("a > b / c & d, e ! f", 0).unwrap();
    match element {
        ASTElement::Rule(r) => {
            let p = &r.predicates[0];
            assert_eq!(p.change.len(), 1);
            assert_eq!(p.environment.len(), 2);
            assert_eq!(p.environment[0].patterns.len(), 2);
            assert_eq!(p.environment[1].patterns.len(), 1);
            assert_eq!(p.exception.len(), 1);
        }
        other => panic!("expected a rule, got {:?}", other),
    }
}

#[test]
fn deletion_sugar_equivalence() {
    // the exact sugar forms and their canonical spellings compile alike
    assert_eq!(statements("- a / c"), statements("a > [] / c"));
    // with the reserved character `_` both spellings fail the same way
    let (left, left_diags) = ast("- a / c_");
    let (right, right_diags) = ast("a > [] / c_");
    let left_stmts: Vec<ASTElement> = left.elements.into_iter().map(|(e, _)| e).collect();
    let right_stmts: Vec<ASTElement> = right.elements.into_iter().map(|(e, _)| e).collect();
    assert_eq!(left_stmts, right_stmts);
    assert_eq!(left_diags.len(), 1);
    assert_eq!(right_diags.len(), 1);
}

#[test]
fn epenthesis_sugar_equivalence() {
    assert_eq!(statements("+ a / c"), statements("[] > a / c"));
    let (left, left_diags) = ast("+ a / c_");
    let (right, right_diags) = ast("[] > a / c_");
    let left_stmts: Vec<ASTElement> = left.elements.into_iter().map(|(e, _)| e).collect();
    let right_stmts: Vec<ASTElement> = right.elements.into_iter().map(|(e, _)| e).collect();
    assert_eq!(left_stmts, right_stmts);
    assert_eq!(left_diags.len(), 1);
    assert_eq!(right_diags.len(), 1);
}

#[test]
fn program_with_comments_and_blank_lines() {
    let source = "// sound changes\nA = a,b\n\na > b / c\n";
    let tree = sce::parse(source).unwrap();
    assert_eq!(tree.elements.len(), 2);
    assert!(matches!(tree.elements[0].0, ASTElement::CatEdit(_)));
    assert!(matches!(tree.elements[1].0, ASTElement::Rule(_)));
}

#[test]
fn bad_statement_gives_diagnostic() {
    let result = sce::parse("???");
    match result {
        Err(diags) => {
            assert_eq!(diags.len(), 1);
            assert_eq!(diags[0].message, "could not parse statement".to_string());
            assert_eq!(diags[0].span, Span { start: 0, end: 3 });
        }
        Ok(_) => panic!("a line of control characters must not compile"),
    }
}

#[test]
fn recovery_keeps_good_statements() {
    // one bad line does not abort the rest
    let (tree, diags) = ast("A = a\n???\nB = b");
    assert_eq!(tree.elements.len(), 2);
    assert_eq!(diags.len(), 1);
}
