//! The interpreter: walks a program's statements in order, folding category
//! edits over the category table, and re-renders the input words.

use crate::parse::{
    ASTElement, CatOrEl, CategoryEdit, CategoryEditKind, Span, SpecASTElement, SpecCatOrEl, AST,
};
use crate::word::{
    into_phones, render_spec, sort_graphs, tokenize, tokenize_ok, word_parse_ok, word_phones,
};
use vstd::prelude::*;

verus! {

/// A category: an ordered list of elements, each itself an ordered sequence
/// of phones.  Elements are compared by full sequence equality.
#[derive(Debug, PartialEq, Eq)]
pub struct Category {
    pub elements: Vec<Vec<String>>,
}

impl DeepView for Category {
    type V = Seq<Seq<Seq<char>>>;

    open spec fn deep_view(&self) -> Seq<Seq<Seq<char>>> {
        self.elements.deep_view()
    }
}

/// The run state of one interpretation: the grapheme inventory in force, the
/// category table, and the names of categories that `+=` or `-=` referenced
/// before they were defined.  The table is a list of bindings where a later
/// binding overrides an earlier one of the same name.
#[derive(Debug)]
pub struct InterpreterState {
    pub graphs: Vec<String>,
    pub categories: Vec<(String, Category)>,
    pub warnings: Vec<String>,
}

/// The category table a binding list stands for: later bindings win.
pub open spec fn cats_view(s: Seq<(String, Category)>) -> Map<Seq<char>, Seq<Seq<Seq<char>>>>
    decreases s.len(),
{
    if s.len() == 0 {
        Map::empty()
    } else {
        cats_view(s.drop_last()).insert(s.last().0@, s.last().1.deep_view())
    }
}

/// The view of an `InterpreterState`.
pub struct SpecInterpreterState {
    pub graphs: Seq<Seq<char>>,
    pub categories: Map<Seq<char>, Seq<Seq<Seq<char>>>>,
    pub warnings: Seq<Seq<char>>,
}

impl DeepView for InterpreterState {
    type V = SpecInterpreterState;

    open spec fn deep_view(&self) -> SpecInterpreterState {
        SpecInterpreterState {
            graphs: self.graphs.deep_view(),
            categories: cats_view(self.categories@),
            warnings: self.warnings.deep_view(),
        }
    }
}

/// A binding whose name does not recur later in the list gives the table's
/// value for that name.
proof fn lemma_cats_view_at(s: Seq<(String, Category)>, key: Seq<char>, i: int)
    requires
        0 <= i < s.len(),
        s[i].0@ == key,
        forall|j: int| i < j < s.len() ==> (#[trigger] s[j]).0@ != key,
    ensures
        cats_view(s).contains_key(key),
        cats_view(s)[key] == s[i].1.deep_view(),
    decreases s.len(),
{
    if i == s.len() - 1 {
    } else {
        assert(s.drop_last()[i] == s[i]);
        lemma_cats_view_at(s.drop_last(), key, i);
    }
}

/// A name that no binding holds is not in the table.
proof fn lemma_cats_view_absent(s: Seq<(String, Category)>, key: Seq<char>)
    requires
        forall|j: int| 0 <= j < s.len() ==> (#[trigger] s[j]).0@ != key,
    ensures
        !cats_view(s).contains_key(key),
    decreases s.len(),
{
    if s.len() > 0 {
        lemma_cats_view_absent(s.drop_last(), key);
    }
}

/// Finds the category bound to `name`, honouring that later bindings win.
fn find_category<'a>(cats: &'a Vec<(String, Category)>, name: &String) -> (r: Option<&'a Category>)
    ensures
        match r {
            Some(c) => cats_view(cats@).contains_key(name@) && c.deep_view() == cats_view(
                cats@,
            )[name@],
            None => !cats_view(cats@).contains_key(name@),
        },
{
    let mut i = cats.len();
    while i > 0
        invariant
            0 <= i <= cats.len(),
            forall|j: int| i <= j < cats@.len() ==> (#[trigger] cats@[j]).0@ != name@,
        decreases i,
    {
        i -= 1;
        if cats[i].0.eq(name) {
            proof {
                lemma_cats_view_at(cats@, name@, i as int);
            }
            return Some(&cats[i].1);
        }
    }
    proof {
        lemma_cats_view_absent(cats@, name@);
    }
    None
}

/// Copies a category's element list.
fn clone_elements(v: &Vec<Vec<String>>) -> (r: Vec<Vec<String>>)
    ensures
        r.deep_view() == v.deep_view(),
{
    let mut r: Vec<Vec<String>> = Vec::new();
    let mut i: usize = 0;
    while i < v.len()
        invariant
            0 <= i <= v.len(),
            r.deep_view() == v.deep_view().take(i as int),
        decreases v.len() - i,
    {
        let mut el: Vec<String> = Vec::new();
        let mut j: usize = 0;
        while j < v[i].len()
            invariant
                0 <= i < v.len(),
                0 <= j <= v@[i as int].len(),
                el.deep_view() == v@[i as int].deep_view().take(j as int),
            decreases v@[i as int].len() - j,
        {
            let ghost prev = el.deep_view();
            el.push(v[i][j].clone());
            assert(el.deep_view() =~= prev.push(v@[i as int]@[j as int]@));
            assert(el.deep_view() =~= v@[i as int].deep_view().take(j + 1));
            j += 1;
        }
        assert(el.deep_view() =~= v@[i as int].deep_view());
        let ghost prev = r.deep_view();
        r.push(el);
        assert(r.deep_view() =~= prev.push(v@[i as int].deep_view()));
        assert(r.deep_view() =~= v.deep_view().take(i + 1));
        i += 1;
    }
    assert(v.deep_view().take(v@.len() as int) =~= v.deep_view());
    r
}

/// Whether two element sequences are equal, phone for phone.
fn elements_eq(a: &Vec<String>, b: &Vec<String>) -> (r: bool)
    ensures
        r == (a.deep_view() == b.deep_view()),
{
    if a.len() != b.len() {
        assert(a.deep_view().len() == a@.len());
        assert(b.deep_view().len() == b@.len());
        return false;
    }
    let mut i: usize = 0;
    while i < a.len()
        invariant
            0 <= i <= a@.len(),
            a@.len() == b@.len(),
            forall|j: int| 0 <= j < i ==> a.deep_view()[j] == b.deep_view()[j],
        decreases a.len() - i,
    {
        if !a[i].eq(&b[i]) {
            assert(a.deep_view()[i as int] != b.deep_view()[i as int]);
            return false;
        }
        assert(a.deep_view()[i as int] == b.deep_view()[i as int]);
        i += 1;
    }
    assert(a.deep_view() =~= b.deep_view());
    true
}

/// Whether `items` holds an element equal to `x`.
fn contains_element(items: &Vec<Vec<String>>, x: &Vec<String>) -> (r: bool)
    ensures
        r == items.deep_view().contains(x.deep_view()),
{
    let mut i: usize = 0;
    while i < items.len()
        invariant
            0 <= i <= items@.len(),
            forall|j: int| 0 <= j < i ==> items.deep_view()[j] != x.deep_view(),
        decreases items.len() - i,
    {
        if elements_eq(&items[i], x) {
            assert(items.deep_view()[i as int] == x.deep_view());
            return true;
        }
        i += 1;
    }
    false
}

/// `input` with every element equal to some member of `items` removed.
pub open spec fn spec_without(
    input: Seq<Seq<Seq<char>>>,
    items: Seq<Seq<Seq<char>>>,
) -> Seq<Seq<Seq<char>>>
    decreases input.len(),
{
    if input.len() == 0 {
        Seq::empty()
    } else if items.contains(input[0]) {
        spec_without(input.subrange(1, input.len() as int), items)
    } else {
        seq![input[0]] + spec_without(input.subrange(1, input.len() as int), items)
    }
}

/// Removes from `input` every element equal to some member of `items`.
pub fn without(input: Vec<Vec<String>>, items: &Vec<Vec<String>>) -> (r: Vec<Vec<String>>)
    ensures
        r.deep_view() == spec_without(input.deep_view(), items.deep_view()),
{
    let ghost whole = spec_without(input.deep_view(), items.deep_view());
    let mut input = input;
    let mut out: Vec<Vec<String>> = Vec::new();
    assert(out.deep_view() + spec_without(input.deep_view(), items.deep_view()) =~= whole);
    while input.len() > 0
        invariant
            out.deep_view() + spec_without(input.deep_view(), items.deep_view()) == whole,
        decreases input.len(),
    {
        let ghost in_prev = input.deep_view();
        let ghost out_prev = out.deep_view();
        let item = input.remove(0);
        assert(input.deep_view() =~= in_prev.subrange(1, in_prev.len() as int));
        assert(item.deep_view() == in_prev[0]);
        if !contains_element(items, &item) {
            out.push(item);
            assert(out.deep_view() =~= out_prev.push(in_prev[0]));
            assert(out_prev + spec_without(in_prev, items.deep_view()) =~= out.deep_view()
                + spec_without(input.deep_view(), items.deep_view()));
        }
    }
    assert(input.deep_view() =~= Seq::<Seq<Seq<char>>>::empty());
    assert(out.deep_view() =~= out.deep_view() + spec_without(
        input.deep_view(),
        items.deep_view(),
    ));
    out
}

/// Every literal operand tokenizes within the tokenizer's contract.
pub open spec fn els_ok(els: Seq<SpecCatOrEl>, graphs: Seq<Seq<char>>, sep: Seq<char>) -> bool {
    forall|j: int|
        0 <= j < els.len() ==> (#[trigger] els[j] matches SpecCatOrEl::El(t) ==> tokenize_ok(
            t,
            graphs,
            sep,
        ))
}

/// The resolution of category-edit operands against the current table: a
/// named reference expands to that category's stored element list (and to
/// nothing if the name is unbound), a literal is tokenized into one element.
pub open spec fn spec_resolve(
    els: Seq<SpecCatOrEl>,
    cats: Map<Seq<char>, Seq<Seq<Seq<char>>>>,
    graphs: Seq<Seq<char>>,
    sep: Seq<char>,
) -> Seq<Seq<Seq<char>>>
    decreases els.len(),
{
    if els.len() == 0 {
        Seq::empty()
    } else {
        let head: Seq<Seq<Seq<char>>> = match els[0] {
            SpecCatOrEl::Cat(name) => if cats.contains_key(name) {
                cats[name]
            } else {
                Seq::empty()
            },
            SpecCatOrEl::El(t) => seq![tokenize(t, graphs, sep)],
        };
        head + spec_resolve(els.subrange(1, els.len() as int), cats, graphs, sep)
    }
}

/// Resolves category-edit operands against the current table.
pub fn cat_or_els_to_els(
    elements: Vec<CatOrEl>,
    categories: &Vec<(String, Category)>,
    graphs: &Vec<String>,
    separator: &String,
) -> (r: Vec<Vec<String>>)
    requires
        els_ok(elements.deep_view(), graphs.deep_view(), separator@),
    ensures
        r.deep_view() == spec_resolve(
            elements.deep_view(),
            cats_view(categories@),
            graphs.deep_view(),
            separator@,
        ),
{
    let ghost cv = cats_view(categories@);
    let ghost gv = graphs.deep_view();
    let ghost sv = separator@;
    let ghost whole = spec_resolve(elements.deep_view(), cv, gv, sv);
    let mut elements = elements;
    let mut out: Vec<Vec<String>> = Vec::new();
    assert(out.deep_view() + spec_resolve(elements.deep_view(), cv, gv, sv) =~= whole);
    while elements.len() > 0
        invariant
            cv == cats_view(categories@),
            gv == graphs.deep_view(),
            sv == separator@,
            els_ok(elements.deep_view(), gv, sv),
            out.deep_view() + spec_resolve(elements.deep_view(), cv, gv, sv) == whole,
        decreases elements.len(),
    {
        let ghost in_prev = elements.deep_view();
        let ghost out_prev = out.deep_view();
        let e = elements.remove(0);
        assert(elements.deep_view() =~= in_prev.subrange(1, in_prev.len() as int));
        assert(e.deep_view() == in_prev[0]);
        match e {
            CatOrEl::Cat(name) => {
                match find_category(categories, &name) {
                    Some(category) => {
                        let mut copied = clone_elements(&category.elements);
                        let ghost cn = copied.deep_view();
                        out.append(&mut copied);
                        assert(out.deep_view() =~= out_prev + cn);
                    },
                    None => {
                        assert(out.deep_view() =~= out_prev + Seq::<Seq<Seq<char>>>::empty());
                    },
                }
            },
            CatOrEl::El(input) => {
                assert(tokenize_ok(input@, gv, sv));
                let phones = into_phones(input, graphs, separator);
                out.push(phones);
                assert(out.deep_view() =~= out_prev.push(tokenize(in_prev[0]->El_0, gv, sv)));
            },
        }
        assert(out_prev + spec_resolve(in_prev, cv, gv, sv) =~= out.deep_view() + spec_resolve(
            elements.deep_view(),
            cv,
            gv,
            sv,
        ));
    }
    assert(elements.deep_view() =~= Seq::<SpecCatOrEl>::empty());
    assert(out.deep_view() =~= out.deep_view() + spec_resolve(elements.deep_view(), cv, gv, sv));
    out
}

/// The effect of one statement on the table and the warning list: a rule
/// leaves both alone; a category edit resolves its operands against the
/// current table and then defines, extends or prunes its target.  Extending
/// or pruning an unbound name is a no-op recorded as a warning.
pub open spec fn spec_step(
    cats: Map<Seq<char>, Seq<Seq<Seq<char>>>>,
    warns: Seq<Seq<char>>,
    stmt: SpecASTElement,
    graphs: Seq<Seq<char>>,
    sep: Seq<char>,
) -> (Map<Seq<char>, Seq<Seq<Seq<char>>>>, Seq<Seq<char>>) {
    match stmt {
        SpecASTElement::Rule(_) => (cats, warns),
        SpecASTElement::CatEdit(e) => {
            let els = spec_resolve(e.elements, cats, graphs, sep);
            match e.kind {
                CategoryEditKind::Def => (cats.insert(e.target, els), warns),
                CategoryEditKind::Add => {
                    if cats.contains_key(e.target) {
                        (cats.insert(e.target, cats[e.target] + els), warns)
                    } else {
                        (cats, warns.push(e.target))
                    }
                },
                CategoryEditKind::Sub => {
                    if cats.contains_key(e.target) {
                        (cats.insert(e.target, spec_without(cats[e.target], els)), warns)
                    } else {
                        (cats, warns.push(e.target))
                    }
                },
            }
        },
    }
}

/// The fold of a statement sequence over the table and the warning list.
pub open spec fn spec_run(
    stmts: Seq<(SpecASTElement, Span)>,
    cats: Map<Seq<char>, Seq<Seq<Seq<char>>>>,
    warns: Seq<Seq<char>>,
    graphs: Seq<Seq<char>>,
    sep: Seq<char>,
) -> (Map<Seq<char>, Seq<Seq<Seq<char>>>>, Seq<Seq<char>>)
    decreases stmts.len(),
{
    if stmts.len() == 0 {
        (cats, warns)
    } else {
        let (c2, w2) = spec_step(cats, warns, stmts[0].0, graphs, sep);
        spec_run(stmts.subrange(1, stmts.len() as int), c2, w2, graphs, sep)
    }
}

/// Every category edit of the program tokenizes its literal operands within
/// the tokenizer's contract.
pub open spec fn stmts_ok(
    stmts: Seq<(SpecASTElement, Span)>,
    graphs: Seq<Seq<char>>,
    sep: Seq<char>,
) -> bool {
    forall|i: int|
        0 <= i < stmts.len() ==> (#[trigger] stmts[i].0 matches SpecASTElement::CatEdit(e)
            ==> els_ok(e.elements, graphs, sep))
}

/// The rendered form every input word takes.
pub open spec fn spec_transformed(
    words: Seq<Seq<char>>,
    graphs: Seq<Seq<char>>,
    sep: Seq<char>,
) -> Seq<Seq<char>> {
    words.map_values(
        |w: Seq<char>| render_spec(word_phones(w, graphs, sep), sort_graphs(graphs), sep),
    )
}

/// Applies a compiled program to a set of words: the words are parsed with
/// the given inventory and separator, the statements are folded in order over
/// the interpreter state (category edits update the table; rule execution is
/// not yet realized and leaves words unchanged), and the words are
/// re-rendered in their order.
pub fn apply(ast: AST, words: Vec<String>, graphs: Vec<String>, separator: String) -> (r: Result<
    (Vec<String>, InterpreterState),
    (),
>)
    requires
        forall|i: int|
            0 <= i < words.deep_view().len() ==> word_parse_ok(
                #[trigger] words.deep_view()[i],
                graphs.deep_view(),
                separator@,
            ),
        stmts_ok(ast.deep_view().elements, graphs.deep_view(), separator@),
    ensures
        (r matches Ok(ok) && {
            &&& ok.0.deep_view() == spec_transformed(
                words.deep_view(),
                graphs.deep_view(),
                separator@,
            )
            &&& ok.1.deep_view().graphs == graphs.deep_view()
            &&& (ok.1.deep_view().categories, ok.1.deep_view().warnings) == spec_run(
                ast.deep_view().elements,
                Map::<Seq<char>, Seq<Seq<Seq<char>>>>::empty(),
                Seq::<Seq<char>>::empty(),
                graphs.deep_view(),
                separator@,
            )
        }),
{
    let ghost gv = graphs.deep_view();
    let ghost sv = separator@;
    let ghost wv = words.deep_view();

    // parse and re-render every word
    let mut rendered: Vec<String> = Vec::new();
    let mut i: usize = 0;
    while i < words.len()
        invariant
            0 <= i <= words.len(),
            gv == graphs.deep_view(),
            sv == separator@,
            wv == words.deep_view(),
            wv.len() == words.len(),
            forall|j: int| 0 <= j < wv.len() ==> word_parse_ok(#[trigger] wv[j], gv, sv),
            rendered.deep_view() == spec_transformed(wv.take(i as int), gv, sv),
        decreases words.len() - i,
    {
        let ghost prev = rendered.deep_view();
        assert(wv[i as int] == words[i as int]@);
        let graphs_copy = clone_strings(&graphs);
        let word = crate::word::parse(&words[i], graphs_copy, separator.clone());
        let out = word.render();
        rendered.push(out);
        proof {
            assert(rendered.deep_view() =~= prev.push(
                render_spec(word_phones(wv[i as int], gv, sv), sort_graphs(gv), sv),
            ));
            assert(wv.take(i + 1) =~= wv.take(i as int).push(wv[i as int]));
            assert(rendered.deep_view() =~= spec_transformed(wv.take(i + 1), gv, sv));
        }
        i += 1;
    }
    assert(wv.take(wv.len() as int) =~= wv);

    // fold the statements over the interpreter state
    let ghost stmts_v = ast.deep_view().elements;
    let ghost whole = spec_run(
        stmts_v,
        Map::<Seq<char>, Seq<Seq<Seq<char>>>>::empty(),
        Seq::<Seq<char>>::empty(),
        gv,
        sv,
    );
    let mut stmts = ast.elements;
    let mut cats: Vec<(String, Category)> = Vec::new();
    let mut warnings: Vec<String> = Vec::new();
    assert(cats_view(cats@) =~= Map::<Seq<char>, Seq<Seq<Seq<char>>>>::empty());
    assert(warnings.deep_view() =~= Seq::<Seq<char>>::empty());
    while stmts.len() > 0
        invariant
            gv == graphs.deep_view(),
            sv == separator@,
            stmts_ok(stmts.deep_view(), gv, sv),
            spec_run(stmts.deep_view(), cats_view(cats@), warnings.deep_view(), gv, sv) == whole,
        decreases stmts.len(),
    {
        let ghost st_prev = stmts.deep_view();
        let ghost cats_prev = cats_view(cats@);
        let ghost warns_prev = warnings.deep_view();
        let (element, _span) = stmts.remove(0);
        assert(stmts.deep_view() =~= st_prev.subrange(1, st_prev.len() as int));
        assert(element.deep_view() == st_prev[0].0);
        match element {
            ASTElement::Rule(_) => {
                assert(spec_step(cats_prev, warns_prev, st_prev[0].0, gv, sv) == (
                    cats_prev,
                    warns_prev,
                ));
            },
            ASTElement::CatEdit(edit) => {
                let ghost ev = edit.deep_view();
                let CategoryEdit { target: name, elements, kind } = edit;
                let els = cat_or_els_to_els(elements, &cats, &graphs, &separator);
                let ghost els_v = els.deep_view();
                match kind {
                    CategoryEditKind::Def => {
                        let ghost cseq = cats@;
                        cats.push((name, Category { elements: els }));
                        proof {
                            assert(cats@.drop_last() =~= cseq);
                            assert(cats_view(cats@) =~= cats_prev.insert(ev.target, els_v));
                        }
                    },
                    CategoryEditKind::Add => {
                        let existing = match find_category(&cats, &name) {
                            Some(c) => Some(clone_elements(&c.elements)),
                            None => None,
                        };
                        match existing {
                            Some(old_els) => {
                                let mut combined = old_els;
                                let ghost base = combined.deep_view();
                                let mut els = els;
                                combined.append(&mut els);
                                assert(combined.deep_view() =~= base + els_v);
                                let ghost cseq = cats@;
                                cats.push((name, Category { elements: combined }));
                                proof {
                                    assert(cats@.drop_last() =~= cseq);
                                    assert(cats_view(cats@) =~= cats_prev.insert(
                                        ev.target,
                                        cats_prev[ev.target] + els_v,
                                    ));
                                }
                            },
                            None => {
                                let ghost wseq = warnings.deep_view();
                                warnings.push(name);
                                assert(warnings.deep_view() =~= wseq.push(ev.target));
                            },
                        }
                    },
                    CategoryEditKind::Sub => {
                        let existing = match find_category(&cats, &name) {
                            Some(c) => Some(clone_elements(&c.elements)),
                            None => None,
                        };
                        match existing {
                            Some(old_els) => {
                                let pruned = without(old_els, &els);
                                let ghost cseq = cats@;
                                cats.push((name, Category { elements: pruned }));
                                proof {
                                    assert(cats@.drop_last() =~= cseq);
                                    assert(cats_view(cats@) =~= cats_prev.insert(
                                        ev.target,
                                        spec_without(cats_prev[ev.target], els_v),
                                    ));
                                }
                            },
                            None => {
                                let ghost wseq = warnings.deep_view();
                                warnings.push(name);
                                assert(warnings.deep_view() =~= wseq.push(ev.target));
                            },
                        }
                    },
                }
            },
        }
        proof {
            let (c2, w2) = spec_step(cats_prev, warns_prev, st_prev[0].0, gv, sv);
            assert(cats_view(cats@) =~= c2);
            assert(warnings.deep_view() =~= w2);
        }
    }
    assert(stmts.deep_view() =~= Seq::<(SpecASTElement, Span)>::empty());
    let state = InterpreterState { graphs, categories: cats, warnings };
    Ok((rendered, state))
}

/// Copies a list of strings.
fn clone_strings(v: &Vec<String>) -> (r: Vec<String>)
    ensures
        r.deep_view() == v.deep_view(),
{
    let mut r: Vec<String> = Vec::new();
    let mut i: usize = 0;
    while i < v.len()
        invariant
            0 <= i <= v.len(),
            r.deep_view() == v.deep_view().take(i as int),
        decreases v.len() - i,
    {
        let ghost prev = r.deep_view();
        r.push(v[i].clone());
        assert(r.deep_view() =~= prev.push(v@[i as int]@));
        assert(r.deep_view() =~= v.deep_view().take(i + 1));
        i += 1;
    }
    assert(v.deep_view().take(v@.len() as int) =~= v.deep_view());
    r
}

impl InterpreterState {
    /// Looks a category up by name.
    pub fn get_category(&self, name: &String) -> (r: Option<&Category>)
        ensures
            match r {
                Some(c) => self.deep_view().categories.contains_key(name@) && c.deep_view()
                    == self.deep_view().categories[name@],
                None => !self.deep_view().categories.contains_key(name@),
            },
    {
        find_category(&self.categories, name)
    }
}

// ---------------------------------------------------------------------------
// Laws of the category algebra
// ---------------------------------------------------------------------------

/// Everything already present in `items` is removed entirely.
proof fn lemma_without_all(input: Seq<Seq<Seq<char>>>, items: Seq<Seq<Seq<char>>>)
    requires
        forall|i: int| 0 <= i < input.len() ==> items.contains(#[trigger] input[i]),
    ensures
        spec_without(input, items) == Seq::<Seq<Seq<char>>>::empty(),
    decreases input.len(),
{
    if input.len() > 0 {
        assert(items.contains(input[0]));
        lemma_without_all(input.subrange(1, input.len() as int), items);
    }
}

/// Adding an element list to a category and then subtracting it gives the
/// original category back, as long as none of the added elements was already
/// a member.
pub proof fn lemma_add_then_sub(c: Seq<Seq<Seq<char>>>, e: Seq<Seq<Seq<char>>>)
    requires
        forall|i: int| 0 <= i < c.len() ==> !e.contains(#[trigger] c[i]),
    ensures
        spec_without(c + e, e) == c,
    decreases c.len(),
{
    if c.len() == 0 {
        assert(c + e =~= e);
        lemma_without_all(e, e);
        assert(spec_without(c + e, e) =~= c);
    } else {
        assert((c + e)[0] == c[0]);
        assert(!e.contains(c[0]));
        assert((c + e).subrange(1, (c + e).len() as int) =~= c.subrange(1, c.len() as int) + e);
        lemma_add_then_sub(c.subrange(1, c.len() as int), e);
        assert(spec_without(c + e, e) =~= c);
    }
}

/// Subtracting never makes a category larger.
pub proof fn lemma_sub_never_grows(c: Seq<Seq<Seq<char>>>, e: Seq<Seq<Seq<char>>>)
    ensures
        spec_without(c, e).len() <= c.len(),
    decreases c.len(),
{
    if c.len() > 0 {
        lemma_sub_never_grows(c.subrange(1, c.len() as int), e);
    }
}

/// Defining a category twice with the same resolved elements is the same as
/// defining it once.
pub proof fn lemma_def_idempotent(
    cats: Map<Seq<char>, Seq<Seq<Seq<char>>>>,
    name: Seq<char>,
    els: Seq<Seq<Seq<char>>>,
)
    ensures
        cats.insert(name, els).insert(name, els) == cats.insert(name, els),
{
    assert(cats.insert(name, els).insert(name, els) =~= cats.insert(name, els));
}

} // verus!