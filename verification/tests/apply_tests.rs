use sce::apply::{apply, Category};

#[test]
fn cat_basic() {
    let ast = sce::parse("A = b,c,d").unwrap();
    let (_, state) = apply(ast, vec!["a".to_string()], vec![], "'".to_string()).unwrap();

    assert_eq!(
        state.get_category(&String::from("A")),
        Some(&Category {
            elements: vec![
                vec!["b".to_string()],
                vec!["c".to_string()],
                vec!["d".to_string()]
            ]
        })
    );
}

#[test]
fn cat_add_and_sub() {
    let ast = sce::parse("A = a,b\nA += c\nA -= c").unwrap();
    let (_, state) = apply(ast, vec![], vec![], "'".to_string()).unwrap();
    assert_eq!(
        state.get_category(&String::from("A")),
        Some(&Category {
            elements: vec![vec!["a".to_string()], vec!["b".to_string()]]
        })
    );
    assert_eq!(state.warnings, Vec::<String>::new());
}

#[test]
fn cat_reference_expands() {
    // a category reference inside an edit expands against the table as it
    // stands at that point of the program
    let ast = sce::parse("A = a,b\nB = [A],c").unwrap();
    let (_, state) = apply(ast, vec![], vec![], "'".to_string()).unwrap();
    assert_eq!(
        state.get_category(&String::from("B")),
        Some(&Category {
            elements: vec![
                vec!["a".to_string()],
                vec!["b".to_string()],
                vec!["c".to_string()]
            ]
        })
    );
}

#[test]
fn cat_redefinition_wins() {
    let ast = sce::parse("A = a\nA = b").unwrap();
    let (_, state) = apply(ast, vec![], vec![], "'".to_string()).unwrap();
    assert_eq!(
        state.get_category(&String::from("A")),
        Some(&Category {
            elements: vec![vec!["b".to_string()]]
        })
    );
}

#[test]
fn cat_def_idempotent() {
    let once = apply(
        sce::parse("A = b,c").unwrap(),
        vec![],
        vec![],
        "'".to_string(),
    )
    .unwrap();
    let twice = apply(
        sce::parse("A = b,c\nA = b,c").unwrap(),
        vec![],
        vec![],
        "'".to_string(),
    )
    .unwrap();
    assert_eq!(
        once.1.get_category(&String::from("A")),
        twice.1.get_category(&String::from("A"))
    );
}

#[test]
fn cat_sub_removes_every_copy() {
    let ast = sce::parse("A = a,b,a\nA -= a").unwrap();
    let (_, state) = apply(ast, vec![], vec![], "'".to_string()).unwrap();
    assert_eq!(
        state.get_category(&String::from("A")),
        Some(&Category {
            elements: vec![vec!["b".to_string()]]
        })
    );
}

#[test]
fn missing_category_warns() {
    // extending or pruning an unbound category is a recoverable no-op
    let ast = sce::parse("B += x\nC -= y").unwrap();
    let (_, state) = apply(ast, vec![], vec![], "'".to_string()).unwrap();
    assert_eq!(state.get_category(&String::from("B")), None);
    assert_eq!(state.get_category(&String::from("C")), None);
    assert_eq!(state.warnings, vec!["B".to_string(), "C".to_string()]);
}

#[test]
fn multi_phone_elements() {
    // with polygraphs in the inventory a category element can hold several
    // phones
    let ast = sce::parse("D = aits").unwrap();
    let (_, state) = apply(
        ast,
        vec![],
        vec!["ts".to_string(), "ai".to_string()],
        "'".to_string(),
    )
    .unwrap();
    assert_eq!(
        state.get_category(&String::from("D")),
        Some(&Category {
            elements: vec![vec!["ai".to_string(), "ts".to_string()]]
        })
    );
}

#[test]
fn words_come_back_normalized() {
    let ast = sce::parse("A = a").unwrap();
    let (words, _) = apply(
        ast,
        vec!["a  b".to_string(), "x'y".to_string()],
        vec![],
        "'".to_string(),
    )
    .unwrap();
    assert_eq!(words, vec!["a b".to_string(), "xy".to_string()]);
}
