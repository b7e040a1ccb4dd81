//! The grammar of the rule language: category edits, patterns, predicates,
//! rules and whole programs, parsed by recursive descent over characters.
//!
//! Every parsing function mirrors a specification twin exactly: the twin
//! takes the input as a character sequence and a position and returns the
//! parsed value (as its mathematical view) together with the position after
//! the consumed text, or nothing if the text does not match.

use crate::common::Wildcard;
use vstd::prelude::*;
use vstd::string::{StrSliceExecFns, StringExecFns};

verus! {

broadcast use vstd::seq::axiom_seq_index_decreases, vstd::seq::axiom_seq_subrange_decreases, vstd::std_specs::vec::axiom_vec_decreases_to_view, vstd::std_specs::vec::axiom_vec_index_decreases;

// ---------------------------------------------------------------------------
// Abstract syntax
// ---------------------------------------------------------------------------

/// An operand of a category edit: either a reference to a named category
/// (`[Name]`) or a literal element.
#[derive(Debug, PartialEq)]
pub enum CatOrEl {
    Cat(String),
    El(String),
}

/// The view of a `CatOrEl`.
pub enum SpecCatOrEl {
    Cat(Seq<char>),
    El(Seq<char>),
}

impl DeepView for CatOrEl {
    type V = SpecCatOrEl;

    open spec fn deep_view(&self) -> SpecCatOrEl {
        match self {
            CatOrEl::Cat(s) => SpecCatOrEl::Cat(s@),
            CatOrEl::El(s) => SpecCatOrEl::El(s@),
        }
    }
}

/// The operator of a category edit: define (`=`), add (`+=`) or subtract
/// (`-=`).
#[derive(Clone, Copy, Debug, PartialEq, Eq, Structural)]
pub enum CategoryEditKind {
    Def,
    Add,
    Sub,
}

impl DeepView for CategoryEditKind {
    type V = CategoryEditKind;

    open spec fn deep_view(&self) -> CategoryEditKind {
        *self
    }
}

/// A category edit statement: `Target (= | += | -=) element, element, ...`.
#[derive(Debug, PartialEq)]
pub struct CategoryEdit {
    pub target: String,
    pub elements: Vec<CatOrEl>,
    pub kind: CategoryEditKind,
}

/// The view of a `CategoryEdit`.
pub struct SpecCategoryEdit {
    pub target: Seq<char>,
    pub elements: Seq<SpecCatOrEl>,
    pub kind: CategoryEditKind,
}

impl DeepView for CategoryEdit {
    type V = SpecCategoryEdit;

    open spec fn deep_view(&self) -> SpecCategoryEdit {
        SpecCategoryEdit {
            target: self.target@,
            elements: self.elements.deep_view(),
            kind: self.kind,
        }
    }
}

/// One element of a pattern.  `Optional` and `OptionalNonGreedy` nest a whole
/// sub-pattern, so the type is recursive.
#[derive(Debug, PartialEq)]
pub enum PatternElement {
    Text(String),
    Optional(Pattern),
    OptionalNonGreedy(Pattern),
    Wildcard(Wildcard),
    RepeatN(usize),
    RepeatWild(Wildcard),
    CatRef(String),
    Category(Vec<CatOrEl>),
    Ditto,
    Target,
    TargetReversed,
}

/// A pattern: a sequence of pattern elements.
#[derive(Debug, PartialEq)]
pub struct Pattern {
    pub elements: Vec<PatternElement>,
}

/// The view of a `PatternElement`.
pub enum SpecPatternElement {
    Text(Seq<char>),
    Optional(SpecPattern),
    OptionalNonGreedy(SpecPattern),
    Wildcard(Wildcard),
    RepeatN(usize),
    RepeatWild(Wildcard),
    CatRef(Seq<char>),
    Category(Seq<SpecCatOrEl>),
    Ditto,
    Target,
    TargetReversed,
}

/// The view of a `Pattern`.
pub struct SpecPattern {
    pub elements: Seq<SpecPatternElement>,
}

/// The view of one pattern element.
pub open spec fn pattern_element_view(e: PatternElement) -> SpecPatternElement
    decreases e,
{
    match e {
        PatternElement::Text(t) => SpecPatternElement::Text(t@),
        PatternElement::Optional(p) => SpecPatternElement::Optional(pattern_view(p)),
        PatternElement::OptionalNonGreedy(p) => SpecPatternElement::OptionalNonGreedy(
            pattern_view(p),
        ),
        PatternElement::Wildcard(w) => SpecPatternElement::Wildcard(w),
        PatternElement::RepeatN(n) => SpecPatternElement::RepeatN(n),
        PatternElement::RepeatWild(w) => SpecPatternElement::RepeatWild(w),
        PatternElement::CatRef(t) => SpecPatternElement::CatRef(t@),
        PatternElement::Category(v) => SpecPatternElement::Category(v.deep_view()),
        PatternElement::Ditto => SpecPatternElement::Ditto,
        PatternElement::Target => SpecPatternElement::Target,
        PatternElement::TargetReversed => SpecPatternElement::TargetReversed,
    }
}

/// The view of a sequence of pattern elements.
pub open spec fn pattern_elements_view(s: Seq<PatternElement>) -> Seq<SpecPatternElement>
    decreases s,
{
    if s.len() == 0 {
        Seq::empty()
    } else {
        seq![pattern_element_view(s[0])] + pattern_elements_view(s.subrange(1, s.len() as int))
    }
}

/// The view of a pattern.
pub open spec fn pattern_view(p: Pattern) -> SpecPattern
    decreases p,
{
    SpecPattern { elements: pattern_elements_view(p.elements@) }
}

impl DeepView for PatternElement {
    type V = SpecPatternElement;

    open spec fn deep_view(&self) -> SpecPatternElement {
        pattern_element_view(*self)
    }
}

impl DeepView for Pattern {
    type V = SpecPattern;

    open spec fn deep_view(&self) -> SpecPattern {
        pattern_view(*self)
    }
}

/// Appending an element to a pattern extends its view by that element's view.
pub proof fn lemma_pattern_elements_view_push(s: Seq<PatternElement>, e: PatternElement)
    ensures
        pattern_elements_view(s.push(e)) == pattern_elements_view(s) + seq![
            pattern_element_view(e),
        ],
    decreases s.len(),
{
    if s.len() == 0 {
        let t = s.push(e);
        assert(t.len() == 1);
        assert(t[0] == e);
        assert(t.subrange(1, t.len() as int) =~= Seq::<PatternElement>::empty());
        assert(pattern_elements_view(t) == seq![pattern_element_view(t[0])]
            + pattern_elements_view(t.subrange(1, t.len() as int)));
        assert(pattern_elements_view(Seq::<PatternElement>::empty())
            =~= Seq::<SpecPatternElement>::empty());
        assert(pattern_elements_view(s.push(e)) =~= pattern_elements_view(s) + seq![
            pattern_element_view(e),
        ]);
    } else {
        let t = s.push(e);
        assert(t[0] == s[0]);
        assert(t.subrange(1, t.len() as int) =~= s.subrange(1, s.len() as int).push(e));
        lemma_pattern_elements_view_push(s.subrange(1, s.len() as int), e);
        assert(pattern_elements_view(s.push(e)) =~= pattern_elements_view(s) + seq![
            pattern_element_view(e),
        ]);
    }
}

/// The view of a sequence of pattern elements is taken element by element.
pub proof fn lemma_pattern_elements_view_index(s: Seq<PatternElement>, i: int)
    requires
        0 <= i < s.len(),
    ensures
        pattern_elements_view(s).len() == s.len(),
        pattern_elements_view(s)[i] == pattern_element_view(s[i]),
    decreases s.len(),
{
    lemma_pattern_elements_view_len(s);
    if i > 0 {
        lemma_pattern_elements_view_index(s.subrange(1, s.len() as int), i - 1);
    } else {
        lemma_pattern_elements_view_len(s.subrange(1, s.len() as int));
    }
}

/// The view of a sequence of pattern elements has the same length.
pub proof fn lemma_pattern_elements_view_len(s: Seq<PatternElement>)
    ensures
        pattern_elements_view(s).len() == s.len(),
    decreases s.len(),
{
    if s.len() > 0 {
        lemma_pattern_elements_view_len(s.subrange(1, s.len() as int));
    }
}

/// One alternative replacement of a predicate's change clause.
#[derive(Debug, PartialEq)]
pub struct Change {
    pub pattern: Pattern,
}

/// The view of a `Change`.
pub struct SpecChange {
    pub pattern: SpecPattern,
}

impl DeepView for Change {
    type V = SpecChange;

    open spec fn deep_view(&self) -> SpecChange {
        SpecChange { pattern: self.pattern.deep_view() }
    }
}

/// Groups together environments that are connected via `&`: every pattern of
/// the group must hold at once.
#[derive(Debug, PartialEq)]
pub struct EnvironmentGroup {
    pub patterns: Vec<Pattern>,
}

/// The view of an `EnvironmentGroup`.
pub struct SpecEnvironmentGroup {
    pub patterns: Seq<SpecPattern>,
}

impl DeepView for EnvironmentGroup {
    type V = SpecEnvironmentGroup;

    open spec fn deep_view(&self) -> SpecEnvironmentGroup {
        SpecEnvironmentGroup { patterns: self.patterns.deep_view() }
    }
}

/// One predicate of a rule: its change alternatives, its environments
/// (groups joined by `,`, acting as logical OR) and its exceptions.
#[derive(Debug, PartialEq)]
pub struct Predicate {
    pub change: Vec<Change>,
    pub environment: Vec<EnvironmentGroup>,
    pub exception: Vec<EnvironmentGroup>,
}

/// The view of a `Predicate`.
pub struct SpecPredicate {
    pub change: Seq<SpecChange>,
    pub environment: Seq<SpecEnvironmentGroup>,
    pub exception: Seq<SpecEnvironmentGroup>,
}

impl DeepView for Predicate {
    type V = SpecPredicate;

    open spec fn deep_view(&self) -> SpecPredicate {
        SpecPredicate {
            change: self.change.deep_view(),
            environment: self.environment.deep_view(),
            exception: self.exception.deep_view(),
        }
    }
}

/// The target of a rule: the pattern to look for, and the positions (from an
/// `@`-clause) of the occurrences the rule acts on.
#[derive(Debug, PartialEq)]
pub struct Target {
    pub pattern: Pattern,
    pub positions: Vec<isize>,
}

/// The view of a `Target`.
pub struct SpecTarget {
    pub pattern: SpecPattern,
    pub positions: Seq<isize>,
}

impl DeepView for Target {
    type V = SpecTarget;

    open spec fn deep_view(&self) -> SpecTarget {
        SpecTarget { pattern: self.pattern.deep_view(), positions: self.positions.deep_view() }
    }
}

/// A rule: a target and one or more predicates.
#[derive(Debug, PartialEq)]
pub struct Rule {
    pub target: Target,
    pub predicates: Vec<Predicate>,
}

/// The view of a `Rule`.
pub struct SpecRule {
    pub target: SpecTarget,
    pub predicates: Seq<SpecPredicate>,
}

impl DeepView for Rule {
    type V = SpecRule;

    open spec fn deep_view(&self) -> SpecRule {
        SpecRule { target: self.target.deep_view(), predicates: self.predicates.deep_view() }
    }
}

/// One statement of a program.
#[derive(Debug, PartialEq)]
pub enum ASTElement {
    Rule(Rule),
    CatEdit(CategoryEdit),
}

/// The view of an `ASTElement`.
pub enum SpecASTElement {
    Rule(SpecRule),
    CatEdit(SpecCategoryEdit),
}

impl DeepView for ASTElement {
    type V = SpecASTElement;

    open spec fn deep_view(&self) -> SpecASTElement {
        match self {
            ASTElement::Rule(r) => SpecASTElement::Rule(r.deep_view()),
            ASTElement::CatEdit(e) => SpecASTElement::CatEdit(e.deep_view()),
        }
    }
}

/// A source span, in byte offsets.
#[derive(Clone, Copy, Debug, PartialEq, Eq, Structural)]
pub struct Span {
    pub start: usize,
    pub end: usize,
}

impl DeepView for Span {
    type V = Span;

    open spec fn deep_view(&self) -> Span {
        *self
    }
}

/// A whole program: its statements, each with the source span it was parsed
/// from.
#[derive(Debug, PartialEq)]
pub struct AST {
    pub elements: Vec<(ASTElement, Span)>,
}

/// The view of an `AST`.
pub struct SpecAST {
    pub elements: Seq<(SpecASTElement, Span)>,
}

impl DeepView for AST {
    type V = SpecAST;

    open spec fn deep_view(&self) -> SpecAST {
        SpecAST { elements: self.elements.deep_view() }
    }
}

/// A parse error: the byte span of the offending statement and a message.
#[derive(Debug, PartialEq)]
pub struct Diagnostic {
    pub span: Span,
    pub message: String,
}

/// The view of a `Diagnostic`.
pub struct SpecDiagnostic {
    pub span: Span,
    pub message: Seq<char>,
}

impl DeepView for Diagnostic {
    type V = SpecDiagnostic;

    open spec fn deep_view(&self) -> SpecDiagnostic {
        SpecDiagnostic { span: self.span, message: self.message@ }
    }
}

// ---------------------------------------------------------------------------
// Characters of the grammar
// ---------------------------------------------------------------------------

/// A parse result agrees with its specification twin: both fail, or both
/// succeed with the same view and the same end position.
pub open spec fn parses_to<T: DeepView>(r: Option<(T, usize)>, sp: Option<(T::V, int)>) -> bool {
    match r {
        None => sp is None,
        Some((v, p)) => sp == Some((v.deep_view(), p as int)),
    }
}

/// The reserved control characters of the rule language; to stand in literal
/// text they must be escaped with a backslash.
pub open spec fn is_control(c: char) -> bool {
    ||| c == '['
    ||| c == ']'
    ||| c == '{'
    ||| c == '}'
    ||| c == '<'
    ||| c == '>'
    ||| c == '('
    ||| c == ')'
    ||| c == '@'
    ||| c == '!'
    ||| c == '%'
    ||| c == '^'
    ||| c == '_'
    ||| c == ','
    ||| c == ' '
    ||| c == '*'
    ||| c == '?'
    ||| c == '\\'
    ||| c == '+'
    ||| c == '-'
    ||| c == '/'
    ||| c == '='
}

/// Decides `is_control`.
pub fn is_control_char(c: char) -> (r: bool)
    ensures
        r == is_control(c),
{
    c == '[' || c == ']' || c == '{' || c == '}' || c == '<' || c == '>' || c == '(' || c == ')'
        || c == '@' || c == '!' || c == '%' || c == '^' || c == '_' || c == ',' || c == ' '
        || c == '*' || c == '?' || c == '\\' || c == '+' || c == '-' || c == '/' || c == '='
}

/// Line terminators: statements are separated by these.
pub open spec fn is_newline_char(c: char) -> bool {
    ||| c == '\n'
    ||| c == '\r'
    ||| c == '\u{0b}'
    ||| c == '\u{0c}'
    ||| c == '\u{85}'
    ||| c == '\u{2028}'
    ||| c == '\u{2029}'
}

/// Decides `is_newline_char`.
pub fn is_newline(c: char) -> (r: bool)
    ensures
        r == is_newline_char(c),
{
    c == '\n' || c == '\r' || c == '\u{0b}' || c == '\u{0c}' || c == '\u{85}' || c == '\u{2028}'
        || c == '\u{2029}'
}

/// Whitespace inside a line.
pub open spec fn is_inline_ws(c: char) -> bool {
    crate::word::is_ws_char(c) && !is_newline_char(c)
}

/// The first position at or after `pos` that does not hold inline whitespace.
pub open spec fn spec_skip_ws(s: Seq<char>, pos: int) -> int
    decreases s.len() - pos,
{
    if 0 <= pos < s.len() && is_inline_ws(s[pos]) {
        spec_skip_ws(s, pos + 1)
    } else {
        pos
    }
}

/// Skips inline whitespace.
pub fn skip_ws(s: &str, pos: usize) -> (r: usize)
    requires
        pos <= s@.len(),
    ensures
        r == spec_skip_ws(s@, pos as int),
        pos <= r <= s@.len(),
{
    let n = s.unicode_len();
    let mut cur = pos;
    loop
        invariant
            pos <= cur <= n,
            n == s@.len(),
            spec_skip_ws(s@, pos as int) == spec_skip_ws(s@, cur as int),
        decreases n - cur,
    {
        if cur < n {
            let c = s.get_char(cur);
            if crate::word::is_ws(c) && !is_newline(c) {
                cur += 1;
                continue ;
            }
        }
        return cur;
    }
}

// ---------------------------------------------------------------------------
// Escapes and literal text
// ---------------------------------------------------------------------------

/// An escape: a backslash followed by a control character stands for that
/// character.
pub open spec fn spec_escape(s: Seq<char>, pos: int) -> Option<(char, int)> {
    if 0 <= pos && pos + 2 <= s.len() && s[pos] == '\\' && is_control(s[pos + 1]) {
        Some((s[pos + 1], pos + 2))
    } else {
        None
    }
}

/// Parses one escape sequence.
pub fn escape(s: &str, pos: usize) -> (r: Option<(char, usize)>)
    requires
        pos <= s@.len(),
    ensures
        parses_to(r, spec_escape(s@, pos as int)),
        r matches Some((_, p)) ==> pos < p <= s@.len(),
{
    let n = s.unicode_len();
    if pos < n && pos + 1 < n && s.get_char(pos) == '\\' && is_control_char(s.get_char(pos + 1)) {
        Some((s.get_char(pos + 1), pos + 2))
    } else {
        None
    }
}

/// One character of literal text: an escape, or a plain character that is
/// neither a control character nor whitespace.
pub open spec fn spec_text_step(s: Seq<char>, pos: int) -> Option<(char, int)> {
    match spec_escape(s, pos) {
        Some(r) => Some(r),
        None => {
            if 0 <= pos < s.len() && !is_control(s[pos]) && !crate::word::is_ws_char(s[pos]) {
                Some((s[pos], pos + 1))
            } else {
                None
            }
        },
    }
}

/// The maximal run of literal-text characters from `pos`: the unescaped
/// characters, and the position after the consumed input.
pub open spec fn spec_text_chars(s: Seq<char>, pos: int) -> (Seq<char>, int)
    decreases s.len() - pos,
{
    match spec_text_step(s, pos) {
        Some((c, p2)) => {
            if pos < p2 <= s.len() {
                let (rest, p3) = spec_text_chars(s, p2);
                (seq![c] + rest, p3)
            } else {
                (Seq::empty(), pos)
            }
        },
        None => (Seq::empty(), pos),
    }
}

/// Literal text: one or more text characters.
pub open spec fn spec_text(s: Seq<char>, pos: int) -> Option<(Seq<char>, int)> {
    let (cs, p2) = spec_text_chars(s, pos);
    if cs.len() > 0 {
        Some((cs, p2))
    } else {
        None
    }
}

/// Parses literal text: a maximal nonempty run of characters that are not
/// control characters and not whitespace, where a control character can be
/// escaped with a backslash.
pub fn text(s: &str, pos: usize) -> (r: Option<(String, usize)>)
    requires
        pos <= s@.len(),
    ensures
        parses_to(r, spec_text(s@, pos as int)),
        r matches Some((_, p)) ==> pos < p <= s@.len(),
{
    let n = s.unicode_len();
    let mut out = String::new();
    let mut cur = pos;
    loop
        invariant
            pos <= cur <= n,
            n == s@.len(),
            out@ + spec_text_chars(s@, cur as int).0 == spec_text_chars(s@, pos as int).0,
            spec_text_chars(s@, cur as int).1 == spec_text_chars(s@, pos as int).1,
            (cur > pos) == (out@.len() > 0),
        decreases n - cur,
    {
        match escape(s, cur) {
            Some((_, p2)) => {
                let piece = s.substring_char(cur + 1, cur + 2);
                assert(piece@ =~= seq![s@[cur + 1]]);
                out.append(piece);
                cur = p2;
            },
            None => {
                let mut plain = false;
                if cur < n {
                    let c = s.get_char(cur);
                    if !is_control_char(c) && !crate::word::is_ws(c) {
                        plain = true;
                    }
                }
                if plain {
                    let piece = s.substring_char(cur, cur + 1);
                    assert(piece@ =~= seq![s@[cur as int]]);
                    out.append(piece);
                    cur += 1;
                } else {
                    // no text character here: the run ends
                    assert(spec_text_step(s@, cur as int) is None);
                    assert(spec_text_chars(s@, cur as int).0 =~= Seq::<char>::empty());
                    assert(out@ == spec_text_chars(s@, pos as int).0);
                    if cur == pos {
                        return None;
                    } else {
                        assert(spec_text_chars(s@, cur as int).1 == cur as int);
                        return Some((out, cur));
                    }
                }
            },
        }
    }
}

// ---------------------------------------------------------------------------
// Category edits
// ---------------------------------------------------------------------------

/// One operand of a category edit: `[Name]` is a category reference, bare
/// text a literal element.
pub open spec fn spec_cat_or_el(s: Seq<char>, pos: int) -> Option<(SpecCatOrEl, int)> {
    let bracketed = if 0 <= pos < s.len() && s[pos] == '[' {
        match spec_text(s, pos + 1) {
            Some((t, p2)) => {
                if p2 < s.len() && s[p2] == ']' {
                    Some((SpecCatOrEl::Cat(t), p2 + 1))
                } else {
                    None
                }
            },
            None => None,
        }
    } else {
        None
    };
    match bracketed {
        Some(r) => Some(r),
        None => match spec_text(s, pos) {
            Some((t, p2)) => Some((SpecCatOrEl::El(t), p2)),
            None => None,
        },
    }
}

/// Parses one operand of a category edit.
pub fn cat_or_el(s: &str, pos: usize) -> (r: Option<(CatOrEl, usize)>)
    requires
        pos <= s@.len(),
    ensures
        parses_to(r, spec_cat_or_el(s@, pos as int)),
        r matches Some((_, p)) ==> pos < p <= s@.len(),
{
    let n = s.unicode_len();
    if pos < n && s.get_char(pos) == '[' {
        match text(s, pos + 1) {
            Some((t, p2)) => {
                if p2 < n && s.get_char(p2) == ']' {
                    return Some((CatOrEl::Cat(t), p2 + 1));
                }
            },
            None => {},
        }
    }
    match text(s, pos) {
        Some((t, p2)) => Some((CatOrEl::El(t), p2)),
        None => None,
    }
}

/// The remaining operands: `, operand` repeated; a comma not followed by an
/// operand is left unconsumed.
pub open spec fn spec_cat_or_els_more(s: Seq<char>, pos: int) -> (Seq<SpecCatOrEl>, int)
    decreases s.len() - pos,
{
    if 0 <= pos < s.len() && s[pos] == ',' {
        let p2 = spec_skip_ws(s, pos + 1);
        match spec_cat_or_el(s, p2) {
            Some((e, p3)) => {
                if pos < p3 <= s.len() {
                    let (rest, p4) = spec_cat_or_els_more(s, p3);
                    (seq![e] + rest, p4)
                } else {
                    (Seq::empty(), pos)
                }
            },
            None => (Seq::empty(), pos),
        }
    } else {
        (Seq::empty(), pos)
    }
}

/// A comma-separated list of one or more operands.
pub open spec fn spec_cat_or_els(s: Seq<char>, pos: int) -> Option<(Seq<SpecCatOrEl>, int)> {
    match spec_cat_or_el(s, pos) {
        Some((e, p2)) => {
            let (rest, p3) = spec_cat_or_els_more(s, p2);
            Some((seq![e] + rest, p3))
        },
        None => None,
    }
}

/// Parses a comma-separated list of one or more category-edit operands.
pub fn cat_or_els(s: &str, pos: usize) -> (r: Option<(Vec<CatOrEl>, usize)>)
    requires
        pos <= s@.len(),
    ensures
        parses_to(r, spec_cat_or_els(s@, pos as int)),
        r matches Some((_, p)) ==> pos < p <= s@.len(),
{
    let first = match cat_or_el(s, pos) {
        Some(r) => r,
        None => {
            return None;
        },
    };
    let ghost whole = spec_cat_or_els(s@, pos as int);
    let mut acc: Vec<CatOrEl> = Vec::new();
    let p0 = first.1;
    acc.push(first.0);
    let mut cur = p0;
    assert(whole matches Some(w) && w.0 == acc.deep_view() + spec_cat_or_els_more(
        s@,
        cur as int,
    ).0 && w.1 == spec_cat_or_els_more(s@, cur as int).1) by {
        assert(acc.deep_view() =~= seq![first.0.deep_view()]);
    }
    let n = s.unicode_len();
    loop
        invariant
            pos < cur <= n,
            n == s@.len(),
            whole == spec_cat_or_els(s@, pos as int),
            whole matches Some(w) && w.0 == acc.deep_view() + spec_cat_or_els_more(
                s@,
                cur as int,
            ).0 && w.1 == spec_cat_or_els_more(s@, cur as int).1,
        decreases n - cur,
    {
        let ghost prev = acc.deep_view();
        if cur < n && s.get_char(cur) == ',' {
            let p2 = skip_ws(s, cur + 1);
            match cat_or_el(s, p2) {
                Some((e, p3)) => {
                    assert(spec_cat_or_els_more(s@, cur as int).0 == seq![e.deep_view()]
                        + spec_cat_or_els_more(s@, p3 as int).0);
                    acc.push(e);
                    assert(acc.deep_view() =~= prev.push(acc.deep_view().last()));
                    assert(prev + spec_cat_or_els_more(s@, cur as int).0 =~= acc.deep_view()
                        + spec_cat_or_els_more(s@, p3 as int).0);
                    cur = p3;
                },
                None => {
                    assert(spec_cat_or_els_more(s@, cur as int).0 =~= Seq::<SpecCatOrEl>::empty());
                    assert(prev + spec_cat_or_els_more(s@, cur as int).0 =~= prev);
                    return Some((acc, cur));
                },
            }
        } else {
            assert(spec_cat_or_els_more(s@, cur as int).0 =~= Seq::<SpecCatOrEl>::empty());
            assert(prev + spec_cat_or_els_more(s@, cur as int).0 =~= prev);
            return Some((acc, cur));
        }
    }
}

// ---------------------------------------------------------------------------
// Wildcards, repeat counts, patterns
// ---------------------------------------------------------------------------

/// A wildcard spelling, longest spelling first: `**?`, `**`, `*?`, `*`.
pub open spec fn spec_wildcard(s: Seq<char>, pos: int) -> Option<(Wildcard, int)> {
    if 0 <= pos < s.len() && s[pos] == '*' {
        if pos + 1 < s.len() && s[pos + 1] == '*' {
            if pos + 2 < s.len() && s[pos + 2] == '?' {
                Some((Wildcard::NonGreedyExtended, pos + 3))
            } else {
                Some((Wildcard::GreedyExtended, pos + 2))
            }
        } else if pos + 1 < s.len() && s[pos + 1] == '?' {
            Some((Wildcard::NonGreedy, pos + 2))
        } else {
            Some((Wildcard::Greedy, pos + 1))
        }
    } else {
        None
    }
}

/// Parses a wildcard spelling.
pub fn wildcard(s: &str, pos: usize) -> (r: Option<(Wildcard, usize)>)
    requires
        pos <= s@.len(),
    ensures
        parses_to(r, spec_wildcard(s@, pos as int)),
        r matches Some((_, p)) ==> pos < p <= s@.len(),
{
    let n = s.unicode_len();
    if pos < n && s.get_char(pos) == '*' {
        if pos + 1 < n && s.get_char(pos + 1) == '*' {
            if pos + 2 < n && s.get_char(pos + 2) == '?' {
                Some((Wildcard::NonGreedyExtended, pos + 3))
            } else {
                Some((Wildcard::GreedyExtended, pos + 2))
            }
        } else if pos + 1 < n && s.get_char(pos + 1) == '?' {
            Some((Wildcard::NonGreedy, pos + 2))
        } else {
            Some((Wildcard::Greedy, pos + 1))
        }
    } else {
        None
    }
}

/// A decimal digit.
pub open spec fn is_digit_char(c: char) -> bool {
    48 <= c as u32 <= 57
}

/// The value of a decimal digit.
pub open spec fn digit_val(c: char) -> int {
    c as u32 - 48
}

/// Reads a run of decimal digits left to right, extending `acc`.
pub open spec fn spec_digits_from(s: Seq<char>, pos: int, acc: int) -> (int, int)
    decreases s.len() - pos,
{
    if 0 <= pos < s.len() && is_digit_char(s[pos]) {
        spec_digits_from(s, pos + 1, acc * 10 + digit_val(s[pos]))
    } else {
        (acc, pos)
    }
}

/// A nonempty run of decimal digits and its value.
pub open spec fn spec_digits(s: Seq<char>, pos: int) -> Option<(int, int)> {
    if 0 <= pos < s.len() && is_digit_char(s[pos]) {
        Some(spec_digits_from(s, pos, 0))
    } else {
        None
    }
}

/// Reading more digits never makes the value smaller.
proof fn lemma_digits_monotone(s: Seq<char>, pos: int, acc: int)
    requires
        acc >= 0,
    ensures
        spec_digits_from(s, pos, acc).0 >= acc,
    decreases s.len() - pos,
{
    if 0 <= pos < s.len() && is_digit_char(s[pos]) {
        lemma_digits_monotone(s, pos + 1, acc * 10 + digit_val(s[pos]));
    }
}

/// Parses a nonempty digit run into a `usize`; fails if there is no digit,
/// and reports a run whose value does not fit.
fn digits(s: &str, pos: usize) -> (r: Option<(usize, usize)>)
    requires
        pos <= s@.len(),
    ensures
        match r {
            Some((v, p)) => spec_digits(s@, pos as int) == Some((v as int, p as int)) && pos < p
                <= s@.len(),
            None => match spec_digits(s@, pos as int) {
                Some(vp) => vp.0 > usize::MAX as int,
                None => true,
            },
        },
{
    let n = s.unicode_len();
    if !(pos < n) {
        return None;
    }
    let c0 = s.get_char(pos) as u32;
    if !(48 <= c0 && c0 <= 57) {
        return None;
    }
    let mut acc: usize = 0;
    let mut cur = pos;
    loop
        invariant
            pos <= cur <= n,
            n == s@.len(),
            acc >= 0,
            spec_digits_from(s@, pos as int, 0) == spec_digits_from(s@, cur as int, acc as int),
            spec_digits(s@, pos as int) == Some(spec_digits_from(s@, pos as int, 0)),
            cur == pos ==> acc == 0,
        decreases n - cur,
    {
        if cur < n {
            let u = s.get_char(cur) as u32;
            if 48 <= u && u <= 57 {
                let d = (u - 48) as usize;
                if acc > (usize::MAX - d) / 10 {
                    // the final value can only grow from here on
                    proof {
                        lemma_digits_monotone(s@, cur + 1, acc * 10 + digit_val(s@[cur as int]));
                    }
                    return None;
                }
                acc = acc * 10 + d;
                cur += 1;
                continue ;
            }
        }
        return Some((acc, cur));
    }
}

/// One pattern element.  The alternatives are dispatched on the first
/// character; literal text is the last resort.  `Optional` and
/// `OptionalNonGreedy` nest a whole sub-pattern between parentheses.
pub open spec fn spec_pattern_element(s: Seq<char>, pos: int) -> Option<(SpecPatternElement, int)>
    decreases s.len() - pos, 0int,
{
    if pos < 0 || pos >= s.len() {
        None
    } else if s[pos] == '(' {
        let (es, p2) = spec_pattern(s, pos + 1);
        if 0 <= p2 < s.len() && s[p2] == ')' {
            if p2 + 1 < s.len() && s[p2 + 1] == '?' {
                Some((SpecPatternElement::OptionalNonGreedy(SpecPattern { elements: es }), p2 + 2))
            } else {
                Some((SpecPatternElement::Optional(SpecPattern { elements: es }), p2 + 1))
            }
        } else {
            None
        }
    } else if s[pos] == '*' {
        match spec_wildcard(s, pos) {
            Some((w, p2)) => Some((SpecPatternElement::Wildcard(w), p2)),
            None => None,
        }
    } else if s[pos] == '{' {
        match spec_wildcard(s, pos + 1) {
            Some((w, p2)) => {
                if p2 < s.len() && s[p2] == '}' {
                    Some((SpecPatternElement::RepeatWild(w), p2 + 1))
                } else {
                    None
                }
            },
            None => match spec_digits(s, pos + 1) {
                Some((v, p2)) => {
                    if p2 < s.len() && s[p2] == '}' && 0 <= v <= usize::MAX as int {
                        Some((SpecPatternElement::RepeatN(v as usize), p2 + 1))
                    } else {
                        None
                    }
                },
                None => None,
            },
        }
    } else if s[pos] == '[' {
        if pos + 1 < s.len() && s[pos + 1] == ']' {
            Some((SpecPatternElement::Category(Seq::empty()), pos + 2))
        } else {
            let catref = match spec_text(s, pos + 1) {
                Some((t, p2)) => {
                    if p2 < s.len() && s[p2] == ']' {
                        Some((SpecPatternElement::CatRef(t), p2 + 1))
                    } else {
                        None
                    }
                },
                None => None,
            };
            match catref {
                Some(r) => Some(r),
                None => match spec_cat_or_els(s, pos + 1) {
                    Some((els, p2)) => {
                        if p2 < s.len() && s[p2] == ']' {
                            Some((SpecPatternElement::Category(els), p2 + 1))
                        } else {
                            None
                        }
                    },
                    None => None,
                },
            }
        }
    } else if s[pos] == '%' {
        Some((SpecPatternElement::Target, pos + 1))
    } else if s[pos] == '"' {
        Some((SpecPatternElement::Ditto, pos + 1))
    } else if s[pos] == '<' {
        Some((SpecPatternElement::TargetReversed, pos + 1))
    } else {
        match spec_text(s, pos) {
            Some((t, p2)) => Some((SpecPatternElement::Text(t), p2)),
            None => None,
        }
    }
}

/// A pattern: as many pattern elements as match, possibly none.
pub open spec fn spec_pattern(s: Seq<char>, pos: int) -> (Seq<SpecPatternElement>, int)
    decreases s.len() - pos, 1int,
{
    match spec_pattern_element(s, pos) {
        Some((e, p2)) => {
            if pos < p2 <= s.len() {
                let (rest, p3) = spec_pattern(s, p2);
                (seq![e] + rest, p3)
            } else {
                (Seq::empty(), pos)
            }
        },
        None => (Seq::empty(), pos),
    }
}

/// Parses one pattern element.
pub fn pattern_element(s: &str, pos: usize) -> (r: Option<(PatternElement, usize)>)
    requires
        pos <= s@.len(),
    ensures
        parses_to(r, spec_pattern_element(s@, pos as int)),
        r matches Some((_, p)) ==> pos < p <= s@.len(),
    decreases s@.len() - pos, 0int,
{
    let n = s.unicode_len();
    if !(pos < n) {
        return None;
    }
    let c = s.get_char(pos);
    if c == '(' {
        let (inner, p2) = pattern(s, pos + 1);
        if p2 < n && s.get_char(p2) == ')' {
            if p2 + 1 < n && s.get_char(p2 + 1) == '?' {
                Some((PatternElement::OptionalNonGreedy(inner), p2 + 2))
            } else {
                Some((PatternElement::Optional(inner), p2 + 1))
            }
        } else {
            None
        }
    } else if c == '*' {
        match wildcard(s, pos) {
            Some((w, p2)) => Some((PatternElement::Wildcard(w), p2)),
            None => None,
        }
    } else if c == '{' {
        match wildcard(s, pos + 1) {
            Some((w, p2)) => {
                if p2 < n && s.get_char(p2) == '}' {
                    Some((PatternElement::RepeatWild(w), p2 + 1))
                } else {
                    None
                }
            },
            None => {
                match digits(s, pos + 1) {
                    Some((v, p2)) => {
                        if p2 < n && s.get_char(p2) == '}' {
                            Some((PatternElement::RepeatN(v), p2 + 1))
                        } else {
                            None
                        }
                    },
                    None => None,
                }
            },
        }
    } else if c == '[' {
        if pos + 1 < n && s.get_char(pos + 1) == ']' {
            let none: Vec<CatOrEl> = Vec::new();
            assert(none.deep_view() =~= Seq::<SpecCatOrEl>::empty());
            Some((PatternElement::Category(none), pos + 2))
        } else {
            match text(s, pos + 1) {
                Some((t, p2)) => {
                    if p2 < n && s.get_char(p2) == ']' {
                        return Some((PatternElement::CatRef(t), p2 + 1));
                    }
                    match cat_or_els(s, pos + 1) {
                        Some((els, p3)) => {
                            if p3 < n && s.get_char(p3) == ']' {
                                Some((PatternElement::Category(els), p3 + 1))
                            } else {
                                None
                            }
                        },
                        None => None,
                    }
                },
                None => {
                    match cat_or_els(s, pos + 1) {
                        Some((els, p3)) => {
                            if p3 < n && s.get_char(p3) == ']' {
                                Some((PatternElement::Category(els), p3 + 1))
                            } else {
                                None
                            }
                        },
                        None => None,
                    }
                },
            }
        }
    } else if c == '%' {
        Some((PatternElement::Target, pos + 1))
    } else if c == '"' {
        Some((PatternElement::Ditto, pos + 1))
    } else if c == '<' {
        Some((PatternElement::TargetReversed, pos + 1))
    } else {
        match text(s, pos) {
            Some((t, p2)) => Some((PatternElement::Text(t), p2)),
            None => None,
        }
    }
}

/// Parses a pattern: as many pattern elements as match, possibly none.
pub fn pattern(s: &str, pos: usize) -> (r: (Pattern, usize))
    requires
        pos <= s@.len(),
    ensures
        r.0.deep_view().elements == spec_pattern(s@, pos as int).0,
        r.1 as int == spec_pattern(s@, pos as int).1,
        pos <= r.1 <= s@.len(),
    decreases s@.len() - pos, 1int,
{
    let n = s.unicode_len();
    let mut acc: Vec<PatternElement> = Vec::new();
    let mut cur = pos;
    assert(pattern_elements_view(acc@) =~= Seq::<SpecPatternElement>::empty());
    loop
        invariant
            pos <= cur <= n,
            n == s@.len(),
            pattern_elements_view(acc@) + spec_pattern(s@, cur as int).0 == spec_pattern(
                s@,
                pos as int,
            ).0,
            spec_pattern(s@, cur as int).1 == spec_pattern(s@, pos as int).1,
        decreases n - cur, 0int,
    {
        let ghost prev = acc@;
        match pattern_element(s, cur) {
            Some((e, p2)) => {
                proof {
                    lemma_pattern_elements_view_push(prev, e);
                }
                assert(spec_pattern(s@, cur as int).0 == seq![pattern_element_view(e)]
                    + spec_pattern(s@, p2 as int).0);
                acc.push(e);
                assert(pattern_elements_view(prev) + spec_pattern(s@, cur as int).0
                    =~= pattern_elements_view(acc@) + spec_pattern(s@, p2 as int).0);
                cur = p2;
            },
            None => {
                assert(spec_pattern(s@, cur as int).0 =~= Seq::<SpecPatternElement>::empty());
                assert(pattern_elements_view(acc@) =~= pattern_elements_view(acc@) + spec_pattern(
                    s@,
                    cur as int,
                ).0);
                return (Pattern { elements: acc }, cur);
            },
        }
    }
}

/// A category edit: a target name, one of the operators `=`, `+=` or `-=`,
/// and the operand list.
pub open spec fn spec_cat_edit(s: Seq<char>, pos: int) -> Option<(SpecCategoryEdit, int)> {
    match spec_text(s, pos) {
        Some((target, p2)) => {
            let p3 = spec_skip_ws(s, p2);
            let kind = if p3 < s.len() && s[p3] == '=' {
                Some((CategoryEditKind::Def, p3 + 1))
            } else if p3 + 2 <= s.len() && s[p3] == '+' && s[p3 + 1] == '=' {
                Some((CategoryEditKind::Add, p3 + 2))
            } else if p3 + 2 <= s.len() && s[p3] == '-' && s[p3 + 1] == '=' {
                Some((CategoryEditKind::Sub, p3 + 2))
            } else {
                None
            };
            match kind {
                Some((k, p4)) => {
                    let p5 = spec_skip_ws(s, p4);
                    match spec_cat_or_els(s, p5) {
                        Some((els, p6)) => Some(
                            (SpecCategoryEdit { target, elements: els, kind: k }, p6),
                        ),
                        None => None,
                    }
                },
                None => None,
            }
        },
        None => None,
    }
}

/// Parses a category edit statement.
pub fn cat_edit(s: &str, pos: usize) -> (r: Option<(CategoryEdit, usize)>)
    requires
        pos <= s@.len(),
    ensures
        parses_to(r, spec_cat_edit(s@, pos as int)),
        r matches Some((_, p)) ==> pos < p <= s@.len(),
{
    let n = s.unicode_len();
    let (target, p2) = match text(s, pos) {
        Some(r) => r,
        None => {
            return None;
        },
    };
    let p3 = skip_ws(s, p2);
    let kind: Option<(CategoryEditKind, usize)> = if p3 < n && s.get_char(p3) == '=' {
        Some((CategoryEditKind::Def, p3 + 1))
    } else if p3 < n && p3 + 1 < n && s.get_char(p3) == '+' && s.get_char(p3 + 1) == '=' {
        Some((CategoryEditKind::Add, p3 + 2))
    } else if p3 < n && p3 + 1 < n && s.get_char(p3) == '-' && s.get_char(p3 + 1) == '=' {
        Some((CategoryEditKind::Sub, p3 + 2))
    } else {
        None
    };
    match kind {
        Some((k, p4)) => {
            let p5 = skip_ws(s, p4);
            match cat_or_els(s, p5) {
                Some((els, p6)) => Some((CategoryEdit { target, elements: els, kind: k }, p6)),
                None => None,
            }
        },
        None => None,
    }
}

// ---------------------------------------------------------------------------
// Changes, environments, predicates
// ---------------------------------------------------------------------------

/// The remaining change alternatives: `, pattern` repeated.
pub open spec fn spec_changes_more(s: Seq<char>, pos: int) -> (Seq<SpecChange>, int)
    decreases s.len() - pos,
{
    if 0 <= pos < s.len() && s[pos] == ',' {
        let p2 = spec_skip_ws(s, pos + 1);
        let (es, p3) = spec_pattern(s, p2);
        if pos < p3 <= s.len() {
            let (rest, p4) = spec_changes_more(s, p3);
            (seq![SpecChange { pattern: SpecPattern { elements: es } }] + rest, p4)
        } else {
            (Seq::empty(), pos)
        }
    } else {
        (Seq::empty(), pos)
    }
}

/// A comma-separated list of one or more change alternatives; each is a
/// pattern and may be empty.
pub open spec fn spec_changes(s: Seq<char>, pos: int) -> (Seq<SpecChange>, int) {
    let (es, p2) = spec_pattern(s, pos);
    let (rest, p3) = spec_changes_more(s, p2);
    (seq![SpecChange { pattern: SpecPattern { elements: es } }] + rest, p3)
}

/// Parses the change alternatives of a predicate.
fn changes(s: &str, pos: usize) -> (r: (Vec<Change>, usize))
    requires
        pos <= s@.len(),
    ensures
        r.0.deep_view() == spec_changes(s@, pos as int).0,
        r.1 as int == spec_changes(s@, pos as int).1,
        pos <= r.1 <= s@.len(),
{
    let (first, p0) = pattern(s, pos);
    let mut acc: Vec<Change> = Vec::new();
    acc.push(Change { pattern: first });
    let mut cur = p0;
    let n = s.unicode_len();
    assert(acc.deep_view() =~= seq![
        SpecChange { pattern: SpecPattern { elements: spec_pattern(s@, pos as int).0 } },
    ]);
    loop
        invariant
            pos <= cur <= n,
            n == s@.len(),
            acc.deep_view() + spec_changes_more(s@, cur as int).0 == spec_changes(
                s@,
                pos as int,
            ).0,
            spec_changes_more(s@, cur as int).1 == spec_changes(s@, pos as int).1,
        decreases n - cur,
    {
        let ghost prev = acc.deep_view();
        if cur < n && s.get_char(cur) == ',' {
            let p2 = skip_ws(s, cur + 1);
            let (pat, p3) = pattern(s, p2);
            assert(spec_changes_more(s@, cur as int).0 == seq![
                SpecChange { pattern: pat.deep_view() },
            ] + spec_changes_more(s@, p3 as int).0);
            acc.push(Change { pattern: pat });
            assert(acc.deep_view() =~= prev.push(SpecChange { pattern: pat.deep_view() }));
            assert(prev + spec_changes_more(s@, cur as int).0 =~= acc.deep_view()
                + spec_changes_more(s@, p3 as int).0);
            cur = p3;
        } else {
            assert(spec_changes_more(s@, cur as int).0 =~= Seq::<SpecChange>::empty());
            assert(prev + spec_changes_more(s@, cur as int).0 =~= prev);
            return (acc, cur);
        }
    }
}

/// The remaining patterns of an environment group: `& pattern` repeated,
/// with inline whitespace around the `&`.
pub open spec fn spec_env_group_more(s: Seq<char>, pos: int) -> (Seq<SpecPattern>, int)
    decreases s.len() - pos,
{
    let q = spec_skip_ws(s, pos);
    if pos <= q < s.len() && s[q] == '&' {
        let q2 = spec_skip_ws(s, q + 1);
        let (es, p3) = spec_pattern(s, q2);
        if pos < p3 <= s.len() {
            let (rest, p4) = spec_env_group_more(s, p3);
            (seq![SpecPattern { elements: es }] + rest, p4)
        } else {
            (Seq::empty(), pos)
        }
    } else {
        (Seq::empty(), pos)
    }
}

/// An environment group: patterns joined by `&`, all of which must hold.
pub open spec fn spec_env_group(s: Seq<char>, pos: int) -> (SpecEnvironmentGroup, int) {
    let (es, p2) = spec_pattern(s, pos);
    let (rest, p3) = spec_env_group_more(s, p2);
    (SpecEnvironmentGroup { patterns: seq![SpecPattern { elements: es }] + rest }, p3)
}

/// Parses one environment group.
fn environment_group(s: &str, pos: usize) -> (r: (EnvironmentGroup, usize))
    requires
        pos <= s@.len(),
    ensures
        r.0.deep_view() == spec_env_group(s@, pos as int).0,
        r.1 as int == spec_env_group(s@, pos as int).1,
        pos <= r.1 <= s@.len(),
{
    let (first, p0) = pattern(s, pos);
    let mut acc: Vec<Pattern> = Vec::new();
    acc.push(first);
    let mut cur = p0;
    let n = s.unicode_len();
    assert(acc.deep_view() =~= seq![
        SpecPattern { elements: spec_pattern(s@, pos as int).0 },
    ]);
    loop
        invariant
            pos <= cur <= n,
            n == s@.len(),
            acc.deep_view() + spec_env_group_more(s@, cur as int).0 == spec_env_group(
                s@,
                pos as int,
            ).0.patterns,
            spec_env_group_more(s@, cur as int).1 == spec_env_group(s@, pos as int).1,
        decreases n - cur,
    {
        let ghost prev = acc.deep_view();
        let q = skip_ws(s, cur);
        if q < n && s.get_char(q) == '&' {
            let q2 = skip_ws(s, q + 1);
            let (pat, p3) = pattern(s, q2);
            assert(spec_env_group_more(s@, cur as int).0 == seq![pat.deep_view()]
                + spec_env_group_more(s@, p3 as int).0);
            acc.push(pat);
            assert(acc.deep_view() =~= prev.push(pat.deep_view()));
            assert(prev + spec_env_group_more(s@, cur as int).0 =~= acc.deep_view()
                + spec_env_group_more(s@, p3 as int).0);
            cur = p3;
        } else {
            assert(spec_env_group_more(s@, cur as int).0 =~= Seq::<SpecPattern>::empty());
            assert(prev + spec_env_group_more(s@, cur as int).0 =~= prev);
            return (EnvironmentGroup { patterns: acc }, cur);
        }
    }
}

/// The remaining environment groups: `, group` repeated.
pub open spec fn spec_environments_more(s: Seq<char>, pos: int) -> (Seq<SpecEnvironmentGroup>, int)
    decreases s.len() - pos,
{
    if 0 <= pos < s.len() && s[pos] == ',' {
        let p2 = spec_skip_ws(s, pos + 1);
        let (g, p3) = spec_env_group(s, p2);
        if pos < p3 <= s.len() {
            let (rest, p4) = spec_environments_more(s, p3);
            (seq![g] + rest, p4)
        } else {
            (Seq::empty(), pos)
        }
    } else {
        (Seq::empty(), pos)
    }
}

/// Environment groups joined by `,`, any one of which suffices.
pub open spec fn spec_environments(s: Seq<char>, pos: int) -> (Seq<SpecEnvironmentGroup>, int) {
    let (g, p2) = spec_env_group(s, pos);
    let (rest, p3) = spec_environments_more(s, p2);
    (seq![g] + rest, p3)
}

/// Parses a comma-separated list of environment groups.
fn environments(s: &str, pos: usize) -> (r: (Vec<EnvironmentGroup>, usize))
    requires
        pos <= s@.len(),
    ensures
        r.0.deep_view() == spec_environments(s@, pos as int).0,
        r.1 as int == spec_environments(s@, pos as int).1,
        pos <= r.1 <= s@.len(),
{
    let (first, p0) = environment_group(s, pos);
    let mut acc: Vec<EnvironmentGroup> = Vec::new();
    acc.push(first);
    let mut cur = p0;
    let n = s.unicode_len();
    assert(acc.deep_view() =~= seq![spec_env_group(s@, pos as int).0]);
    loop
        invariant
            pos <= cur <= n,
            n == s@.len(),
            acc.deep_view() + spec_environments_more(s@, cur as int).0 == spec_environments(
                s@,
                pos as int,
            ).0,
            spec_environments_more(s@, cur as int).1 == spec_environments(s@, pos as int).1,
        decreases n - cur,
    {
        let ghost prev = acc.deep_view();
        if cur < n && s.get_char(cur) == ',' {
            let p2 = skip_ws(s, cur + 1);
            let (g, p3) = environment_group(s, p2);
            assert(spec_environments_more(s@, cur as int).0 == seq![g.deep_view()]
                + spec_environments_more(s@, p3 as int).0);
            acc.push(g);
            assert(acc.deep_view() =~= prev.push(g.deep_view()));
            assert(prev + spec_environments_more(s@, cur as int).0 =~= acc.deep_view()
                + spec_environments_more(s@, p3 as int).0);
            cur = p3;
        } else {
            assert(spec_environments_more(s@, cur as int).0
                =~= Seq::<SpecEnvironmentGroup>::empty());
            assert(prev + spec_environments_more(s@, cur as int).0 =~= prev);
            return (acc, cur);
        }
    }
}

/// An optional environment clause: `/` followed by environments.
pub open spec fn spec_env_clause(s: Seq<char>, pos: int) -> (Seq<SpecEnvironmentGroup>, int) {
    if 0 <= pos < s.len() && s[pos] == '/' {
        let p2 = spec_skip_ws(s, pos + 1);
        spec_environments(s, p2)
    } else {
        (Seq::empty(), pos)
    }
}

/// Parses the optional environment clause.
fn environment_clause(s: &str, pos: usize) -> (r: (Vec<EnvironmentGroup>, usize))
    requires
        pos <= s@.len(),
    ensures
        r.0.deep_view() == spec_env_clause(s@, pos as int).0,
        r.1 as int == spec_env_clause(s@, pos as int).1,
        pos <= r.1 <= s@.len(),
{
    let n = s.unicode_len();
    if pos < n && s.get_char(pos) == '/' {
        let p2 = skip_ws(s, pos + 1);
        environments(s, p2)
    } else {
        let none: Vec<EnvironmentGroup> = Vec::new();
        assert(none.deep_view() =~= Seq::<SpecEnvironmentGroup>::empty());
        (none, pos)
    }
}

/// An optional exception clause: `!` followed by environments.
pub open spec fn spec_exc_clause(s: Seq<char>, pos: int) -> (Seq<SpecEnvironmentGroup>, int) {
    if 0 <= pos < s.len() && s[pos] == '!' {
        let p2 = spec_skip_ws(s, pos + 1);
        spec_environments(s, p2)
    } else {
        (Seq::empty(), pos)
    }
}

/// Parses the optional exception clause.
fn exception_clause(s: &str, pos: usize) -> (r: (Vec<EnvironmentGroup>, usize))
    requires
        pos <= s@.len(),
    ensures
        r.0.deep_view() == spec_exc_clause(s@, pos as int).0,
        r.1 as int == spec_exc_clause(s@, pos as int).1,
        pos <= r.1 <= s@.len(),
{
    let n = s.unicode_len();
    if pos < n && s.get_char(pos) == '!' {
        let p2 = skip_ws(s, pos + 1);
        environments(s, p2)
    } else {
        let none: Vec<EnvironmentGroup> = Vec::new();
        assert(none.deep_view() =~= Seq::<SpecEnvironmentGroup>::empty());
        (none, pos)
    }
}

/// A predicate: `>`, the change alternatives, an optional environment clause
/// and an optional exception clause.
pub open spec fn spec_predicate(s: Seq<char>, pos: int) -> Option<(SpecPredicate, int)> {
    if 0 <= pos < s.len() && s[pos] == '>' {
        let p2 = spec_skip_ws(s, pos + 1);
        let (cs, p3) = spec_changes(s, p2);
        let p4 = spec_skip_ws(s, p3);
        let (env, p5) = spec_env_clause(s, p4);
        let p6 = spec_skip_ws(s, p5);
        let (exc, p7) = spec_exc_clause(s, p6);
        Some((SpecPredicate { change: cs, environment: env, exception: exc }, p7))
    } else {
        None
    }
}

/// Parses one predicate.
pub fn predicate(s: &str, pos: usize) -> (r: Option<(Predicate, usize)>)
    requires
        pos <= s@.len(),
    ensures
        parses_to(r, spec_predicate(s@, pos as int)),
        r matches Some((_, p)) ==> pos < p <= s@.len(),
{
    let n = s.unicode_len();
    if pos < n && s.get_char(pos) == '>' {
        let p2 = skip_ws(s, pos + 1);
        let (cs, p3) = changes(s, p2);
        let p4 = skip_ws(s, p3);
        let (env, p5) = environment_clause(s, p4);
        let p6 = skip_ws(s, p5);
        let (exc, p7) = exception_clause(s, p6);
        Some((Predicate { change: cs, environment: env, exception: exc }, p7))
    } else {
        None
    }
}

/// The remaining predicates of a plain rule: optionally whitespace-separated.
/// A predicate that does not follow is left unconsumed, whitespace included.
pub open spec fn spec_predicates_more(s: Seq<char>, pos: int) -> (Seq<SpecPredicate>, int)
    decreases s.len() - pos,
{
    let q = spec_skip_ws(s, pos);
    if pos <= q <= s.len() {
        match spec_predicate(s, q) {
            Some((pr, p2)) => {
                if pos < p2 <= s.len() {
                    let (rest, p3) = spec_predicates_more(s, p2);
                    (seq![pr] + rest, p3)
                } else {
                    (Seq::empty(), pos)
                }
            },
            None => (Seq::empty(), pos),
        }
    } else {
        (Seq::empty(), pos)
    }
}

/// One or more predicates.
pub open spec fn spec_predicates(s: Seq<char>, pos: int) -> Option<(Seq<SpecPredicate>, int)> {
    match spec_predicate(s, pos) {
        Some((pr, p2)) => {
            let (rest, p3) = spec_predicates_more(s, p2);
            Some((seq![pr] + rest, p3))
        },
        None => None,
    }
}

/// Parses one or more predicates.
fn predicates(s: &str, pos: usize) -> (r: Option<(Vec<Predicate>, usize)>)
    requires
        pos <= s@.len(),
    ensures
        parses_to(r, spec_predicates(s@, pos as int)),
        r matches Some((_, p)) ==> pos < p <= s@.len(),
{
    let (first, p0) = match predicate(s, pos) {
        Some(r) => r,
        None => {
            return None;
        },
    };
    let mut acc: Vec<Predicate> = Vec::new();
    acc.push(first);
    let mut cur = p0;
    let n = s.unicode_len();
    assert(acc.deep_view() =~= seq![spec_predicate(s@, pos as int)->Some_0.0]);
    loop
        invariant
            pos < cur <= n,
            n == s@.len(),
            spec_predicates(s@, pos as int) matches Some(w) && w.0 == acc.deep_view()
                + spec_predicates_more(s@, cur as int).0 && w.1 == spec_predicates_more(
                s@,
                cur as int,
            ).1,
        decreases n - cur,
    {
        let ghost prev = acc.deep_view();
        let q = skip_ws(s, cur);
        match predicate(s, q) {
            Some((pr, p2)) => {
                assert(spec_predicates_more(s@, cur as int).0 == seq![pr.deep_view()]
                    + spec_predicates_more(s@, p2 as int).0);
                acc.push(pr);
                assert(acc.deep_view() =~= prev.push(pr.deep_view()));
                assert(prev + spec_predicates_more(s@, cur as int).0 =~= acc.deep_view()
                    + spec_predicates_more(s@, p2 as int).0);
                cur = p2;
            },
            None => {
                assert(spec_predicates_more(s@, cur as int).0 =~= Seq::<SpecPredicate>::empty());
                assert(prev + spec_predicates_more(s@, cur as int).0 =~= prev);
                return Some((acc, cur));
            },
        }
    }
}

/// One predicate of an epenthesis or deletion rule: the `>` clause may be
/// absent, in which case the change list is empty; the sugar rewrite replaces
/// it anyway.
pub open spec fn spec_sugar_predicate(s: Seq<char>, pos: int) -> (SpecPredicate, int) {
    match spec_predicate(s, pos) {
        Some(r) => r,
        None => {
            let (env, p2) = spec_env_clause(s, pos);
            let p3 = spec_skip_ws(s, p2);
            let (exc, p4) = spec_exc_clause(s, p3);
            (SpecPredicate { change: Seq::empty(), environment: env, exception: exc }, p4)
        },
    }
}

/// Parses one predicate of a sugar rule.
fn sugar_predicate(s: &str, pos: usize) -> (r: (Predicate, usize))
    requires
        pos <= s@.len(),
    ensures
        r.0.deep_view() == spec_sugar_predicate(s@, pos as int).0,
        r.1 as int == spec_sugar_predicate(s@, pos as int).1,
        pos <= r.1 <= s@.len(),
{
    match predicate(s, pos) {
        Some(r) => r,
        None => {
            let (env, p2) = environment_clause(s, pos);
            let p3 = skip_ws(s, p2);
            let (exc, p4) = exception_clause(s, p3);
            let none: Vec<Change> = Vec::new();
            assert(none.deep_view() =~= Seq::<SpecChange>::empty());
            (Predicate { change: none, environment: env, exception: exc }, p4)
        },
    }
}

/// The remaining predicates of a sugar rule: parsing stops at the first
/// predicate that consumes nothing.
pub open spec fn spec_sugar_predicates_more(s: Seq<char>, pos: int) -> (Seq<SpecPredicate>, int)
    decreases s.len() - pos,
{
    let q = spec_skip_ws(s, pos);
    if pos <= q <= s.len() {
        let (pr, p2) = spec_sugar_predicate(s, q);
        if q < p2 <= s.len() && pos < p2 {
            let (rest, p3) = spec_sugar_predicates_more(s, p2);
            (seq![pr] + rest, p3)
        } else {
            (Seq::empty(), pos)
        }
    } else {
        (Seq::empty(), pos)
    }
}

/// One or more predicates of a sugar rule; the first may be empty.
pub open spec fn spec_sugar_predicates(s: Seq<char>, pos: int) -> (Seq<SpecPredicate>, int) {
    let (pr, p2) = spec_sugar_predicate(s, pos);
    let (rest, p3) = spec_sugar_predicates_more(s, p2);
    (seq![pr] + rest, p3)
}

/// Parses the predicates of a sugar rule.
fn sugar_predicates(s: &str, pos: usize) -> (r: (Vec<Predicate>, usize))
    requires
        pos <= s@.len(),
    ensures
        r.0.deep_view() == spec_sugar_predicates(s@, pos as int).0,
        r.1 as int == spec_sugar_predicates(s@, pos as int).1,
        pos <= r.1 <= s@.len(),
        r.0.len() >= 1,
{
    let (first, p0) = sugar_predicate(s, pos);
    let mut acc: Vec<Predicate> = Vec::new();
    acc.push(first);
    let mut cur = p0;
    let n = s.unicode_len();
    assert(acc.deep_view() =~= seq![spec_sugar_predicate(s@, pos as int).0]);
    loop
        invariant
            pos <= cur <= n,
            n == s@.len(),
            acc.len() >= 1,
            acc.deep_view() + spec_sugar_predicates_more(s@, cur as int).0
                == spec_sugar_predicates(s@, pos as int).0,
            spec_sugar_predicates_more(s@, cur as int).1 == spec_sugar_predicates(
                s@,
                pos as int,
            ).1,
        decreases n - cur,
    {
        let ghost prev = acc.deep_view();
        let q = skip_ws(s, cur);
        let (pr, p2) = sugar_predicate(s, q);
        if p2 > q {
            assert(spec_sugar_predicates_more(s@, cur as int).0 == seq![pr.deep_view()]
                + spec_sugar_predicates_more(s@, p2 as int).0);
            acc.push(pr);
            assert(acc.deep_view() =~= prev.push(pr.deep_view()));
            assert(prev + spec_sugar_predicates_more(s@, cur as int).0 =~= acc.deep_view()
                + spec_sugar_predicates_more(s@, p2 as int).0);
            cur = p2;
        } else {
            assert(spec_sugar_predicates_more(s@, cur as int).0
                =~= Seq::<SpecPredicate>::empty());
            assert(prev + spec_sugar_predicates_more(s@, cur as int).0 =~= prev);
            return (acc, cur);
        }
    }
}

// ---------------------------------------------------------------------------
// Targets and rules
// ---------------------------------------------------------------------------

/// A signed position number: an optional `-`, then digits, with a value that
/// fits the position type.
pub open spec fn spec_position_num(s: Seq<char>, pos: int) -> Option<(isize, int)> {
    let neg = 0 <= pos < s.len() && s[pos] == '-';
    let p1 = if neg {
        pos + 1
    } else {
        pos
    };
    match spec_digits(s, p1) {
        Some((v, p2)) => {
            let value = if neg {
                -v
            } else {
                v
            };
            if isize::MIN as int <= value <= isize::MAX as int {
                Some((value as isize, p2))
            } else {
                None
            }
        },
        None => None,
    }
}

/// Parses a signed position number.
fn position_num(s: &str, pos: usize) -> (r: Option<(isize, usize)>)
    requires
        pos <= s@.len(),
    ensures
        parses_to(r, spec_position_num(s@, pos as int)),
        r matches Some((_, p)) ==> pos < p <= s@.len(),
{
    let n = s.unicode_len();
    let neg = pos < n && s.get_char(pos) == '-';
    let p1 = if neg {
        pos + 1
    } else {
        pos
    };
    match digits(s, p1) {
        Some((v, p2)) => {
            if neg {
                if v <= isize::MAX as usize {
                    Some((-(v as isize), p2))
                } else if v == (isize::MAX as usize) + 1 {
                    Some((isize::MIN, p2))
                } else {
                    None
                }
            } else {
                if v <= isize::MAX as usize {
                    Some((v as isize, p2))
                } else {
                    None
                }
            }
        },
        None => None,
    }
}

/// The remaining position numbers: `| number` repeated.
pub open spec fn spec_positions_more(s: Seq<char>, pos: int) -> (Seq<isize>, int)
    decreases s.len() - pos,
{
    if 0 <= pos < s.len() && s[pos] == '|' {
        match spec_position_num(s, pos + 1) {
            Some((v, p2)) => {
                if pos < p2 <= s.len() {
                    let (rest, p3) = spec_positions_more(s, p2);
                    (seq![v] + rest, p3)
                } else {
                    (Seq::empty(), pos)
                }
            },
            None => (Seq::empty(), pos),
        }
    } else {
        (Seq::empty(), pos)
    }
}

/// An `@`-clause: one or more position numbers separated by `|`.
pub open spec fn spec_positions(s: Seq<char>, pos: int) -> Option<(Seq<isize>, int)> {
    if 0 <= pos < s.len() && s[pos] == '@' {
        match spec_position_num(s, pos + 1) {
            Some((v, p2)) => {
                let (rest, p3) = spec_positions_more(s, p2);
                Some((seq![v] + rest, p3))
            },
            None => None,
        }
    } else {
        None
    }
}

/// Parses an `@`-clause.
fn positions(s: &str, pos: usize) -> (r: Option<(Vec<isize>, usize)>)
    requires
        pos <= s@.len(),
    ensures
        parses_to(r, spec_positions(s@, pos as int)),
        r matches Some((_, p)) ==> pos < p <= s@.len(),
{
    let n = s.unicode_len();
    if !(pos < n && s.get_char(pos) == '@') {
        return None;
    }
    let (first, p0) = match position_num(s, pos + 1) {
        Some(r) => r,
        None => {
            return None;
        },
    };
    let mut acc: Vec<isize> = Vec::new();
    acc.push(first);
    let mut cur = p0;
    assert(acc.deep_view() =~= seq![first]);
    loop
        invariant
            pos < cur <= n,
            n == s@.len(),
            spec_positions(s@, pos as int) matches Some(w) && w.0 == acc.deep_view()
                + spec_positions_more(s@, cur as int).0 && w.1 == spec_positions_more(
                s@,
                cur as int,
            ).1,
        decreases n - cur,
    {
        let ghost prev = acc.deep_view();
        if cur < n && s.get_char(cur) == '|' {
            match position_num(s, cur + 1) {
                Some((v, p2)) => {
                    assert(spec_positions_more(s@, cur as int).0 == seq![v]
                        + spec_positions_more(s@, p2 as int).0);
                    acc.push(v);
                    assert(acc.deep_view() =~= prev.push(v));
                    assert(prev + spec_positions_more(s@, cur as int).0 =~= acc.deep_view()
                        + spec_positions_more(s@, p2 as int).0);
                    cur = p2;
                },
                None => {
                    assert(spec_positions_more(s@, cur as int).0 =~= Seq::<isize>::empty());
                    assert(prev + spec_positions_more(s@, cur as int).0 =~= prev);
                    return Some((acc, cur));
                },
            }
        } else {
            assert(spec_positions_more(s@, cur as int).0 =~= Seq::<isize>::empty());
            assert(prev + spec_positions_more(s@, cur as int).0 =~= prev);
            return Some((acc, cur));
        }
    }
}

/// A target: a pattern, optionally followed by an `@`-clause.  A malformed
/// `@`-clause is left unconsumed.
pub open spec fn spec_target(s: Seq<char>, pos: int) -> (SpecTarget, int) {
    let (es, p2) = spec_pattern(s, pos);
    match spec_positions(s, p2) {
        Some((ps, p3)) => (SpecTarget { pattern: SpecPattern { elements: es }, positions: ps }, p3),
        None => (SpecTarget { pattern: SpecPattern { elements: es }, positions: Seq::empty() }, p2),
    }
}

/// Parses a target.
fn target(s: &str, pos: usize) -> (r: (Target, usize))
    requires
        pos <= s@.len(),
    ensures
        r.0.deep_view() == spec_target(s@, pos as int).0,
        r.1 as int == spec_target(s@, pos as int).1,
        pos <= r.1 <= s@.len(),
{
    let (pat, p2) = pattern(s, pos);
    match positions(s, p2) {
        Some((ps, p3)) => (Target { pattern: pat, positions: ps }, p3),
        None => {
            let none: Vec<isize> = Vec::new();
            assert(none.deep_view() =~= Seq::<isize>::empty());
            (Target { pattern: pat, positions: none }, p2)
        },
    }
}

/// The pattern holding only the null (empty) category, the placeholder that
/// the sugar rewrites insert.
pub open spec fn spec_null_pattern() -> SpecPattern {
    SpecPattern { elements: seq![SpecPatternElement::Category(Seq::empty())] }
}

/// Builds the null-category pattern.
fn null_pattern() -> (r: Pattern)
    ensures
        r.deep_view() == spec_null_pattern(),
{
    let none: Vec<CatOrEl> = Vec::new();
    let mut els: Vec<PatternElement> = Vec::new();
    assert(none.deep_view() =~= Seq::<SpecCatOrEl>::empty());
    els.push(PatternElement::Category(none));
    proof {
        lemma_pattern_elements_view_push(Seq::empty(), els[0]);
        assert(pattern_elements_view(Seq::empty()) =~= Seq::<SpecPatternElement>::empty());
        assert(pattern_elements_view(els@) =~= spec_null_pattern().elements);
    }
    Pattern { elements: els }
}

/// The deletion rewrite: every predicate's change becomes the null category,
/// so `- a / c` compiles like `a > [] / c`.
pub open spec fn spec_deletion_rewrite(preds: Seq<SpecPredicate>) -> Seq<SpecPredicate> {
    preds.map_values(
        |p: SpecPredicate|
            SpecPredicate {
                change: seq![SpecChange { pattern: spec_null_pattern() }],
                environment: p.environment,
                exception: p.exception,
            },
    )
}

/// The epenthesis rewrite: the rule's target becomes the null category and
/// the parsed target becomes the first predicate's change, so `+ a / c`
/// compiles like `[] > a / c`.
pub open spec fn spec_epenthesis_rewrite(t: SpecTarget, preds: Seq<SpecPredicate>) -> SpecRule {
    SpecRule {
        target: SpecTarget { pattern: spec_null_pattern(), positions: t.positions },
        predicates: preds.update(
            0,
            SpecPredicate {
                change: seq![SpecChange { pattern: t.pattern }],
                environment: preds[0].environment,
                exception: preds[0].exception,
            },
        ),
    }
}

/// A rule: a plain `Target Predicate+`, or the epenthesis sugar
/// `+ Target Predicate*` or the deletion sugar `- Target Predicate*`, each
/// rewritten to the canonical shape.
pub open spec fn spec_rule(s: Seq<char>, pos: int) -> Option<(SpecRule, int)> {
    if 0 <= pos < s.len() && s[pos] == '+' {
        let a = spec_skip_ws(s, pos + 1);
        let (t, p2) = spec_target(s, a);
        let p3 = spec_skip_ws(s, p2);
        let (preds, p4) = spec_sugar_predicates(s, p3);
        Some((spec_epenthesis_rewrite(t, preds), p4))
    } else if 0 <= pos < s.len() && s[pos] == '-' {
        let a = spec_skip_ws(s, pos + 1);
        let (t, p2) = spec_target(s, a);
        let p3 = spec_skip_ws(s, p2);
        let (preds, p4) = spec_sugar_predicates(s, p3);
        Some((SpecRule { target: t, predicates: spec_deletion_rewrite(preds) }, p4))
    } else {
        let (t, p2) = spec_target(s, pos);
        let p3 = spec_skip_ws(s, p2);
        match spec_predicates(s, p3) {
            Some((preds, p4)) => Some((SpecRule { target: t, predicates: preds }, p4)),
            None => None,
        }
    }
}

/// Parses a rule.
pub fn rule(s: &str, pos: usize) -> (r: Option<(Rule, usize)>)
    requires
        pos <= s@.len(),
    ensures
        parses_to(r, spec_rule(s@, pos as int)),
        r matches Some((_, p)) ==> pos <= p <= s@.len(),
{
    let n = s.unicode_len();
    if pos < n && s.get_char(pos) == '+' {
        let a = skip_ws(s, pos + 1);
        let (t, p2) = target(s, a);
        let p3 = skip_ws(s, p2);
        let (mut preds, p4) = sugar_predicates(s, p3);
        let ghost preds_v = preds.deep_view();
        let Target { pattern: tpat, positions: tpos } = t;
        let first = preds.remove(0);
        let mut change: Vec<Change> = Vec::new();
        change.push(Change { pattern: tpat });
        assert(change.deep_view() =~= seq![SpecChange { pattern: change[0].pattern.deep_view() }]);
        preds.insert(
            0,
            Predicate { change, environment: first.environment, exception: first.exception },
        );
        let out = Rule { target: Target { pattern: null_pattern(), positions: tpos }, predicates: preds };
        assert(out.deep_view().predicates =~= spec_epenthesis_rewrite(
            spec_target(s@, a as int).0,
            preds_v,
        ).predicates);
        assert(out.deep_view().target.positions =~= spec_epenthesis_rewrite(
            spec_target(s@, a as int).0,
            preds_v,
        ).target.positions);
        Some((out, p4))
    } else if pos < n && s.get_char(pos) == '-' {
        let a = skip_ws(s, pos + 1);
        let (t, p2) = target(s, a);
        let p3 = skip_ws(s, p2);
        let (mut preds, p4) = sugar_predicates(s, p3);
        let ghost preds_v = preds.deep_view();
        let mut out: Vec<Predicate> = Vec::new();
        assert(out.deep_view() + preds.deep_view().map_values(
            |p: SpecPredicate|
                SpecPredicate {
                    change: seq![SpecChange { pattern: spec_null_pattern() }],
                    environment: p.environment,
                    exception: p.exception,
                },
        ) =~= spec_deletion_rewrite(preds_v));
        while preds.len() > 0
            invariant
                out.deep_view() + preds.deep_view().map_values(
                    |p: SpecPredicate|
                        SpecPredicate {
                            change: seq![SpecChange { pattern: spec_null_pattern() }],
                            environment: p.environment,
                            exception: p.exception,
                        },
                ) == spec_deletion_rewrite(preds_v),
            decreases preds.len(),
        {
            let ghost out_prev = out.deep_view();
            let ghost preds_prev = preds.deep_view();
            let p = preds.remove(0);
            let mut change: Vec<Change> = Vec::new();
            change.push(Change { pattern: null_pattern() });
            assert(change.deep_view() =~= seq![SpecChange { pattern: spec_null_pattern() }]);
            out.push(
                Predicate { change, environment: p.environment, exception: p.exception },
            );
            proof {
                let f = |p: SpecPredicate|
                    SpecPredicate {
                        change: seq![SpecChange { pattern: spec_null_pattern() }],
                        environment: p.environment,
                        exception: p.exception,
                    };
                assert(preds.deep_view() =~= preds_prev.subrange(1, preds_prev.len() as int));
                assert(out.deep_view() =~= out_prev.push(f(preds_prev[0])));
                assert(out.deep_view() + preds.deep_view().map_values(f) =~= out_prev
                    + preds_prev.map_values(f));
            }
        }
        assert(preds.deep_view().map_values(
            |p: SpecPredicate|
                SpecPredicate {
                    change: seq![SpecChange { pattern: spec_null_pattern() }],
                    environment: p.environment,
                    exception: p.exception,
                },
        ) =~= Seq::<SpecPredicate>::empty());
        assert(out.deep_view() =~= spec_deletion_rewrite(preds_v));
        Some((Rule { target: t, predicates: out }, p4))
    } else {
        let (t, p2) = target(s, pos);
        let p3 = skip_ws(s, p2);
        match predicates(s, p3) {
            Some((preds, p4)) => Some((Rule { target: t, predicates: preds }, p4)),
            None => None,
        }
    }
}

/// A statement: a rule, or otherwise a category edit.
pub open spec fn spec_ast_element(s: Seq<char>, pos: int) -> Option<(SpecASTElement, int)> {
    match spec_rule(s, pos) {
        Some((r, p2)) => Some((SpecASTElement::Rule(r), p2)),
        None => match spec_cat_edit(s, pos) {
            Some((e, p2)) => Some((SpecASTElement::CatEdit(e), p2)),
            None => None,
        },
    }
}

/// Parses one statement.
pub fn ast_element(s: &str, pos: usize) -> (r: Option<(ASTElement, usize)>)
    requires
        pos <= s@.len(),
    ensures
        parses_to(r, spec_ast_element(s@, pos as int)),
        r matches Some((_, p)) ==> pos <= p <= s@.len(),
{
    match rule(s, pos) {
        Some((r, p2)) => Some((ASTElement::Rule(r), p2)),
        None => match cat_edit(s, pos) {
            Some((e, p2)) => Some((ASTElement::CatEdit(e), p2)),
            None => None,
        },
    }
}

// ---------------------------------------------------------------------------
// Whole programs
// ---------------------------------------------------------------------------

/// The number of bytes of the UTF-8 encoding of `s`.
pub open spec fn byte_len(s: Seq<char>) -> int {
    vstd::utf8::encode_utf8(s).len() as int
}

/// The byte span of the character range `[a, b)` of `s`.
pub open spec fn span_of(s: Seq<char>, a: int, b: int) -> Span {
    Span { start: byte_len(s.take(a)) as usize, end: byte_len(s.take(b)) as usize }
}

/// The byte offset of character position `p`.
fn byte_offset(s: &str, p: usize) -> (r: usize)
    requires
        p <= s@.len(),
    ensures
        r == byte_len(s@.take(p as int)) as usize,
{
    let sub = s.substring_char(0, p);
    assert(sub@ =~= s@.take(p as int));
    sub.len()
}

/// The diagnostic reported for a line that does not hold one whole statement.
pub open spec fn line_diag(s: Seq<char>, a: int, b: int) -> SpecDiagnostic {
    SpecDiagnostic { span: span_of(s, a, b), message: "could not parse statement"@ }
}

/// The first position at or after `pos` that holds a line terminator.
pub open spec fn spec_line_end(s: Seq<char>, pos: int) -> int
    decreases s.len() - pos,
{
    if 0 <= pos < s.len() {
        if is_newline_char(s[pos]) {
            pos
        } else {
            spec_line_end(s, pos + 1)
        }
    } else {
        s.len() as int
    }
}

/// Finds the end of the current line.
fn line_end(s: &str, pos: usize) -> (r: usize)
    requires
        pos <= s@.len(),
    ensures
        r == spec_line_end(s@, pos as int),
        pos <= r <= s@.len(),
{
    let n = s.unicode_len();
    let mut cur = pos;
    loop
        invariant
            pos <= cur <= n,
            n == s@.len(),
            spec_line_end(s@, pos as int) == spec_line_end(s@, cur as int),
        decreases n - cur,
    {
        if cur < n {
            if !is_newline(s.get_char(cur)) {
                cur += 1;
                continue ;
            }
        }
        return cur;
    }
}

/// One line of a program: a blank line or a comment line contributes
/// nothing; otherwise the line must hold exactly one statement, and a line
/// that does not yields one diagnostic.
pub open spec fn spec_line(s: Seq<char>, pos: int, e: int) -> (
    Seq<(SpecASTElement, Span)>,
    Seq<SpecDiagnostic>,
) {
    let c0 = spec_skip_ws(s, pos);
    if c0 >= e {
        (Seq::empty(), Seq::empty())
    } else if s[c0] == '/' && c0 + 1 < s.len() && s[c0 + 1] == '/' {
        (Seq::empty(), Seq::empty())
    } else {
        match spec_ast_element(s, c0) {
            Some((el, p2)) => {
                let p3 = spec_skip_ws(s, p2);
                if p3 == e {
                    (seq![(el, span_of(s, c0, p2))], Seq::empty())
                } else {
                    (Seq::empty(), seq![line_diag(s, c0, e)])
                }
            },
            None => (Seq::empty(), seq![line_diag(s, c0, e)]),
        }
    }
}

/// A whole program from position `pos` on: statements separated by line
/// terminators, with the diagnostics of the lines that failed.
pub open spec fn spec_ast_from(s: Seq<char>, pos: int) -> (
    Seq<(SpecASTElement, Span)>,
    Seq<SpecDiagnostic>,
)
    decreases s.len() - pos,
{
    if !(0 <= pos < s.len()) {
        (Seq::empty(), Seq::empty())
    } else {
        let e = spec_line_end(s, pos);
        let (st, dg) = spec_line(s, pos, e);
        let next = if e + 1 <= s.len() {
            e + 1
        } else {
            s.len() as int
        };
        if pos < next <= s.len() {
            let (st2, dg2) = spec_ast_from(s, next);
            (st + st2, dg + dg2)
        } else {
            (st, dg)
        }
    }
}

/// A whole program: its statements with their spans, and the diagnostics of
/// every line that failed to parse.
pub open spec fn spec_ast(s: Seq<char>) -> (Seq<(SpecASTElement, Span)>, Seq<SpecDiagnostic>) {
    spec_ast_from(s, 0)
}

/// Parses a whole program.  One bad line does not abort the rest: it is
/// reported as a diagnostic and parsing continues on the next line.
pub fn ast(s: &str) -> (r: (AST, Vec<Diagnostic>))
    ensures
        r.0.deep_view().elements == spec_ast(s@).0,
        r.1.deep_view() == spec_ast(s@).1,
{
    let n = s.unicode_len();
    let mut stmts: Vec<(ASTElement, Span)> = Vec::new();
    let mut diags: Vec<Diagnostic> = Vec::new();
    let mut pos: usize = 0;
    assert(stmts.deep_view() =~= Seq::<(SpecASTElement, Span)>::empty());
    assert(diags.deep_view() =~= Seq::<SpecDiagnostic>::empty());
    assert(stmts.deep_view() + spec_ast_from(s@, 0).0 =~= spec_ast(s@).0);
    assert(diags.deep_view() + spec_ast_from(s@, 0).1 =~= spec_ast(s@).1);
    while pos < n
        invariant
            0 <= pos <= n,
            n == s@.len(),
            stmts.deep_view() + spec_ast_from(s@, pos as int).0 == spec_ast(s@).0,
            diags.deep_view() + spec_ast_from(s@, pos as int).1 == spec_ast(s@).1,
        decreases n - pos,
    {
        let ghost st_prev = stmts.deep_view();
        let ghost dg_prev = diags.deep_view();
        let ghost here = pos as int;
        let e = line_end(s, pos);
        let c0 = skip_ws(s, pos);
        if c0 >= e {
            // blank line
        } else if s.get_char(c0) == '/' && c0 + 1 < n && s.get_char(c0 + 1) == '/' {
            // comment line
        } else {
            match ast_element(s, c0) {
                Some((el, p2)) => {
                    let p3 = skip_ws(s, p2);
                    if p3 == e {
                        let span = Span { start: byte_offset(s, c0), end: byte_offset(s, p2) };
                        stmts.push((el, span));
                        assert(stmts.deep_view() =~= st_prev.push(
                            (el.deep_view(), span_of(s@, c0 as int, p2 as int)),
                        ));
                    } else {
                        let span = Span { start: byte_offset(s, c0), end: byte_offset(s, e) };
                        diags.push(
                            Diagnostic { span, message: "could not parse statement".to_owned() },
                        );
                        assert(diags.deep_view() =~= dg_prev.push(
                            line_diag(s@, c0 as int, e as int),
                        ));
                    }
                },
                None => {
                    let span = Span { start: byte_offset(s, c0), end: byte_offset(s, e) };
                    diags.push(
                        Diagnostic { span, message: "could not parse statement".to_owned() },
                    );
                    assert(diags.deep_view() =~= dg_prev.push(line_diag(s@, c0 as int, e as int)));
                },
            }
        }
        pos = if e < n {
            e + 1
        } else {
            n
        };
        proof {
            let (lst, ldg) = spec_line(s@, here, spec_line_end(s@, here));
            assert(spec_ast_from(s@, here).0 == lst + spec_ast_from(s@, pos as int).0);
            assert(spec_ast_from(s@, here).1 == ldg + spec_ast_from(s@, pos as int).1);
            assert(stmts.deep_view() =~= st_prev + lst);
            assert(diags.deep_view() =~= dg_prev + ldg);
            assert(stmts.deep_view() + spec_ast_from(s@, pos as int).0 =~= st_prev
                + spec_ast_from(s@, here).0);
            assert(diags.deep_view() + spec_ast_from(s@, pos as int).1 =~= dg_prev
                + spec_ast_from(s@, here).1);
        }
    }
    assert(spec_ast_from(s@, pos as int).0 =~= Seq::<(SpecASTElement, Span)>::empty());
    assert(spec_ast_from(s@, pos as int).1 =~= Seq::<SpecDiagnostic>::empty());
    assert(stmts.deep_view() =~= stmts.deep_view() + spec_ast_from(s@, pos as int).0);
    assert(diags.deep_view() =~= diags.deep_view() + spec_ast_from(s@, pos as int).1);
    (AST { elements: stmts }, diags)
}

} // verus!
