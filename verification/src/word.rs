//! The word model: segmentation of raw text into phonetic tokens using a
//! longest-match grapheme inventory, and rendering of tokens back to text.

use crate::parse::{
    lemma_pattern_elements_view_index, lemma_pattern_elements_view_len,
    lemma_pattern_elements_view_push, pattern_element_view, pattern_elements_view, Pattern,
    PatternElement, SpecPatternElement,
};
use core::ops::Range;
use vstd::prelude::*;
use vstd::string::{StrSliceExecFns, StringExecFns};

verus! {

// ---------------------------------------------------------------------------
// Character classes and sequence helpers
// ---------------------------------------------------------------------------

/// The Unicode `White_Space` characters, the set that `str::split_whitespace`
/// splits on.
pub open spec fn is_ws_char(c: char) -> bool {
    ||| c == ' '
    ||| c == '\t'
    ||| c == '\n'
    ||| c == '\r'
    ||| c == '\u{0b}'
    ||| c == '\u{0c}'
    ||| c == '\u{85}'
    ||| c == '\u{a0}'
    ||| c == '\u{1680}'
    ||| c == '\u{2000}'
    ||| c == '\u{2001}'
    ||| c == '\u{2002}'
    ||| c == '\u{2003}'
    ||| c == '\u{2004}'
    ||| c == '\u{2005}'
    ||| c == '\u{2006}'
    ||| c == '\u{2007}'
    ||| c == '\u{2008}'
    ||| c == '\u{2009}'
    ||| c == '\u{200a}'
    ||| c == '\u{2028}'
    ||| c == '\u{2029}'
    ||| c == '\u{202f}'
    ||| c == '\u{205f}'
    ||| c == '\u{3000}'
}

/// Decides `is_ws_char` executably.
pub fn is_ws(c: char) -> (r: bool)
    ensures
        r == is_ws_char(c),
{
    c == ' ' || c == '\t' || c == '\n' || c == '\r' || c == '\u{0b}' || c == '\u{0c}'
        || c == '\u{85}' || c == '\u{a0}' || c == '\u{1680}' || c == '\u{2000}' || c == '\u{2001}'
        || c == '\u{2002}' || c == '\u{2003}' || c == '\u{2004}' || c == '\u{2005}'
        || c == '\u{2006}' || c == '\u{2007}' || c == '\u{2008}' || c == '\u{2009}'
        || c == '\u{200a}' || c == '\u{2028}' || c == '\u{2029}' || c == '\u{202f}'
        || c == '\u{205f}' || c == '\u{3000}'
}

/// The word-boundary token `#`.
pub open spec fn boundary() -> Seq<char> {
    seq!['#']
}

/// `p` is a prefix of `s`.
pub open spec fn is_prefix(s: Seq<char>, p: Seq<char>) -> bool {
    p.len() <= s.len() && s.take(p.len() as int) == p
}

/// Decides whether `p@` is a prefix of `s@.skip(pos)`.
pub fn prefix_at(s: &str, pos: usize, p: &str) -> (r: bool)
    requires
        pos <= s@.len(),
    ensures
        r == is_prefix(s@.skip(pos as int), p@),
{
    let n = s.unicode_len();
    let m = p.unicode_len();
    if m > n - pos {
        assert(!is_prefix(s@.skip(pos as int), p@));
        return false;
    }
    let mut i: usize = 0;
    while i < m
        invariant
            0 <= i <= m,
            pos + m <= n,
            n == s@.len(),
            m == p@.len(),
            forall|j: int| 0 <= j < i ==> s@[pos + j] == p@[j],
        decreases m - i,
    {
        if s.get_char(pos + i) != p.get_char(i) {
            assert(s@.skip(pos as int)[i as int] == s@[pos + i]);
            assert(!is_prefix(s@.skip(pos as int), p@)) by {
                if is_prefix(s@.skip(pos as int), p@) {
                    assert(s@.skip(pos as int).take(m as int)[i as int] == p@[i as int]);
                }
            }
            return false;
        }
        i += 1;
    }
    assert(s@.skip(pos as int).take(m as int) =~= p@);
    true
}

// ---------------------------------------------------------------------------
// Tokenization: the specification model
// ---------------------------------------------------------------------------

/// One leading occurrence of the separator removed, if present.
pub open spec fn strip_sep(s: Seq<char>, sep: Seq<char>) -> Seq<char> {
    if sep.len() > 0 && is_prefix(s, sep) {
        s.skip(sep.len() as int)
    } else {
        s
    }
}

/// The first grapheme at or after index `i` of the inventory that prefixes `s`.
pub open spec fn first_graph_from(s: Seq<char>, graphs: Seq<Seq<char>>, i: int) -> Option<
    Seq<char>,
>
    decreases graphs.len() - i,
{
    if i < 0 || i >= graphs.len() {
        None
    } else if is_prefix(s, graphs[i]) {
        Some(graphs[i])
    } else {
        first_graph_from(s, graphs, i + 1)
    }
}

/// The first grapheme of the inventory, in inventory order, that prefixes `s`.
pub open spec fn first_graph(s: Seq<char>, graphs: Seq<Seq<char>>) -> Option<Seq<char>> {
    first_graph_from(s, graphs, 0)
}

/// The tokenizer makes progress on every step as long as this holds: after a
/// leading separator is stripped some input remains, and a matched grapheme is
/// never empty.  Inputs on which it fails are outside the tokenizer's
/// contract (a pathological inventory, or text that ends in a bare separator).
pub open spec fn tokenize_ok(s: Seq<char>, graphs: Seq<Seq<char>>, sep: Seq<char>) -> bool
    decreases s.len(),
{
    if s.len() == 0 {
        true
    } else {
        let s2 = strip_sep(s, sep);
        if s2.len() == 0 {
            false
        } else {
            match first_graph(s2, graphs) {
                Some(g) => 0 < g.len() <= s2.len() && tokenize_ok(
                    s2.skip(g.len() as int),
                    graphs,
                    sep,
                ),
                None => tokenize_ok(s2.skip(1), graphs, sep),
            }
        }
    }
}

/// The token sequence produced by longest-match segmentation of `s`, where the
/// inventory `graphs` is consulted in order at every position (the word model
/// keeps it sorted by descending length) and a leading separator occurrence is
/// stripped before each match.
pub open spec fn tokenize(s: Seq<char>, graphs: Seq<Seq<char>>, sep: Seq<char>) -> Seq<Seq<char>>
    decreases s.len(),
{
    if s.len() == 0 {
        Seq::empty()
    } else {
        let s2 = strip_sep(s, sep);
        if s2.len() == 0 {
            Seq::empty()
        } else {
            match first_graph(s2, graphs) {
                Some(g) => {
                    if 0 < g.len() <= s2.len() {
                        seq![g] + tokenize(s2.skip(g.len() as int), graphs, sep)
                    } else {
                        Seq::empty()
                    }
                },
                None => seq![s2.take(1)] + tokenize(s2.skip(1), graphs, sep),
            }
        }
    }
}

// ---------------------------------------------------------------------------
// Tokenization: executable code
// ---------------------------------------------------------------------------

/// Finds the first grapheme of the inventory that prefixes `s@.skip(pos)`,
/// returning its index in the inventory.
fn find_graph(s: &str, pos: usize, graphs: &Vec<String>) -> (r: Option<usize>)
    requires
        pos <= s@.len(),
    ensures
        match r {
            Some(i) => i < graphs.len() && first_graph(s@.skip(pos as int), graphs.deep_view())
                == Some(graphs.deep_view()[i as int]) && graphs.deep_view()[i as int]
                == graphs[i as int]@,
            None => first_graph(s@.skip(pos as int), graphs.deep_view()) is None,
        },
{
    let ghost dv = graphs.deep_view();
    let ghost suffix = s@.skip(pos as int);
    let mut i: usize = 0;
    while i < graphs.len()
        invariant
            0 <= i <= graphs.len(),
            pos <= s@.len(),
            dv == graphs.deep_view(),
            suffix == s@.skip(pos as int),
            dv.len() == graphs.len(),
            first_graph_from(suffix, dv, 0) == first_graph_from(suffix, dv, i as int),
        decreases graphs.len() - i,
    {
        assert(dv[i as int] == graphs[i as int].deep_view());
        if prefix_at(s, pos, graphs[i].as_str()) {
            return Some(i);
        }
        i += 1;
    }
    None
}

/// Segments `input` into phones: a leading separator occurrence is stripped,
/// then the first grapheme of the inventory that prefixes the rest is taken,
/// and otherwise a single character becomes a phone.
pub fn into_phones(input: String, graphs: &Vec<String>, separator: &String) -> (phones: Vec<
    String,
>)
    requires
        tokenize_ok(input@, graphs.deep_view(), separator@),
    ensures
        phones.deep_view() == tokenize(input@, graphs.deep_view(), separator@),
{
    let ghost dv = graphs.deep_view();
    let ghost whole = tokenize(input@, dv, separator@);
    let n = input.as_str().unicode_len();
    let sep_n = separator.as_str().unicode_len();
    let mut phones: Vec<String> = Vec::new();
    let mut pos: usize = 0;
    assert(input@.skip(0) =~= input@);
    assert(phones.deep_view() + tokenize(input@, dv, separator@) =~= whole);
    while pos < n
        invariant
            0 <= pos <= n,
            n == input@.len(),
            sep_n == separator@.len(),
            dv == graphs.deep_view(),
            tokenize_ok(input@.skip(pos as int), dv, separator@),
            phones.deep_view() + tokenize(input@.skip(pos as int), dv, separator@) == whole,
        decreases n - pos,
    {
        let ghost before = input@.skip(pos as int);
        // strip one leading separator occurrence
        if sep_n > 0 && prefix_at(input.as_str(), pos, separator.as_str()) {
            pos = pos + sep_n;
            assert(input@.skip(pos as int) =~= strip_sep(before, separator@));
        } else {
            assert(input@.skip(pos as int) =~= strip_sep(before, separator@));
        }
        let ghost s2 = input@.skip(pos as int);
        assert(s2.len() > 0);
        let ghost prev = phones.deep_view();
        match find_graph(input.as_str(), pos, graphs) {
            Some(i) => {
                let g = graphs[i].clone();
                let glen = g.as_str().unicode_len();
                assert(is_prefix(s2, g@)) by {
                    lemma_first_graph_is_prefix(s2, dv, 0);
                }
                phones.push(g);
                pos = pos + glen;
                assert(input@.skip(pos as int) =~= s2.skip(glen as int));
            },
            None => {
                let c = input.as_str().substring_char(pos, pos + 1).to_owned();
                assert(c@ =~= s2.take(1));
                phones.push(c);
                pos = pos + 1;
                assert(input@.skip(pos as int) =~= s2.skip(1));
            },
        }
        assert(phones.deep_view() =~= prev.push(phones.deep_view().last()));
        assert(tokenize(before, dv, separator@) == seq![phones.deep_view().last()] + tokenize(
            input@.skip(pos as int),
            dv,
            separator@,
        ));
        assert(phones.deep_view() + tokenize(input@.skip(pos as int), dv, separator@) =~= prev
            + tokenize(before, dv, separator@));
    }
    assert(input@.skip(pos as int) =~= Seq::<char>::empty());
    assert(phones.deep_view() =~= phones.deep_view() + tokenize(
        input@.skip(pos as int),
        dv,
        separator@,
    ));
    phones
}

/// A grapheme returned by `first_graph` prefixes the input.
proof fn lemma_first_graph_is_prefix(s: Seq<char>, graphs: Seq<Seq<char>>, i: int)
    requires
        first_graph_from(s, graphs, i) is Some,
    ensures
        is_prefix(s, first_graph_from(s, graphs, i)->Some_0),
    decreases graphs.len() - i,
{
    if i < 0 || i >= graphs.len() {
    } else if is_prefix(s, graphs[i]) {
    } else {
        lemma_first_graph_is_prefix(s, graphs, i + 1);
    }
}

// ---------------------------------------------------------------------------
// The grapheme inventory: sorted by descending length
// ---------------------------------------------------------------------------

/// `g` inserted into a length-descending list, after any entry of equal length.
pub open spec fn insert_desc(g: Seq<char>, sorted: Seq<Seq<char>>) -> Seq<Seq<char>>
    decreases sorted.len(),
{
    if sorted.len() == 0 {
        seq![g]
    } else if g.len() > sorted[0].len() {
        seq![g] + sorted
    } else {
        seq![sorted[0]] + insert_desc(g, sorted.drop_first())
    }
}

/// The inventory sorted by descending length; entries of equal length keep
/// their inventory order.
pub open spec fn sort_graphs(graphs: Seq<Seq<char>>) -> Seq<Seq<char>>
    decreases graphs.len(),
{
    if graphs.len() == 0 {
        Seq::empty()
    } else {
        insert_desc(graphs.last(), sort_graphs(graphs.drop_last()))
    }
}

/// `insert_desc` places its element at the first index whose entry is
/// strictly shorter.
proof fn lemma_insert_desc_at(g: Seq<char>, s: Seq<Seq<char>>, j: int)
    requires
        0 <= j <= s.len(),
        forall|k: int| 0 <= k < j ==> g.len() <= (#[trigger] s[k]).len(),
        j < s.len() ==> g.len() > s[j].len(),
    ensures
        insert_desc(g, s) == s.take(j) + seq![g] + s.skip(j),
    decreases s.len(),
{
    if s.len() == 0 {
        assert(insert_desc(g, s) =~= s.take(j) + seq![g] + s.skip(j));
    } else if g.len() > s[0].len() {
        assert(j == 0);
        assert(insert_desc(g, s) =~= s.take(0) + seq![g] + s.skip(0));
    } else {
        assert(j >= 1);
        lemma_insert_desc_at(g, s.drop_first(), j - 1);
        assert(seq![s[0]] + (s.drop_first().take(j - 1) + seq![g] + s.drop_first().skip(j - 1))
            =~= s.take(j) + seq![g] + s.skip(j));
    }
}

/// Inserts `g` into a vector sorted by descending length, after any entry of
/// equal length.
fn insert_sorted(g: String, sorted: &mut Vec<String>)
    ensures
        final(sorted).deep_view() == insert_desc(g@, old(sorted).deep_view()),
{
    let ghost dv = sorted.deep_view();
    let glen = g.as_str().unicode_len();
    let mut j: usize = 0;
    while j < sorted.len() && glen <= sorted[j].as_str().unicode_len()
        invariant
            0 <= j <= sorted.len(),
            dv == sorted.deep_view(),
            dv.len() == sorted.len(),
            glen == g@.len(),
            forall|k: int| 0 <= k < j ==> g@.len() <= (#[trigger] dv[k]).len(),
        decreases sorted.len() - j,
    {
        assert(dv[j as int] == sorted[j as int]@);
        j += 1;
    }
    proof {
        if (j as int) < dv.len() {
            assert(dv[j as int] == sorted[j as int]@);
        }
        lemma_insert_desc_at(g@, dv, j as int);
    }
    sorted.insert(j, g);
    assert(sorted.deep_view() =~= dv.take(j as int) + seq![g@] + dv.skip(j as int));
}

/// Sorts the inventory by descending length, keeping the inventory order of
/// entries of equal length.
fn sorted_graphs(graphs: Vec<String>) -> (r: Vec<String>)
    ensures
        r.deep_view() == sort_graphs(graphs.deep_view()),
{
    let ghost dv = graphs.deep_view();
    let mut r: Vec<String> = Vec::new();
    let mut i: usize = 0;
    assert(r.deep_view() =~= sort_graphs(dv.take(0)));
    while i < graphs.len()
        invariant
            0 <= i <= graphs.len(),
            dv == graphs.deep_view(),
            dv.len() == graphs.len(),
            r.deep_view() == sort_graphs(dv.take(i as int)),
        decreases graphs.len() - i,
    {
        assert(dv[i as int] == graphs[i as int]@);
        insert_sorted(graphs[i].clone(), &mut r);
        proof {
            let t = dv.take(i + 1);
            assert(t.drop_last() =~= dv.take(i as int));
            assert(t.last() == dv[i as int]);
        }
        i += 1;
    }
    assert(dv.take(dv.len() as int) =~= dv);
    r
}

// ---------------------------------------------------------------------------
// Polygraphs and whitespace normalization
// ---------------------------------------------------------------------------

/// Every inventory entry is at most one character long.
pub open spec fn no_polygraphs_spec(graphs: Seq<Seq<char>>) -> bool {
    forall|i: int| 0 <= i < graphs.len() ==> (#[trigger] graphs[i]).len() <= 1
}

/// Decides whether the inventory has no entry longer than one character.
pub fn no_polygraphs(graphs: &Vec<String>) -> (r: bool)
    ensures
        r == no_polygraphs_spec(graphs.deep_view()),
{
    let ghost dv = graphs.deep_view();
    let mut i: usize = 0;
    while i < graphs.len()
        invariant
            0 <= i <= graphs.len(),
            dv == graphs.deep_view(),
            dv.len() == graphs.len(),
            forall|k: int| 0 <= k < i ==> (#[trigger] dv[k]).len() <= 1,
        decreases graphs.len() - i,
    {
        assert(dv[i as int] == graphs[i as int]@);
        if graphs[i].as_str().unicode_len() > 1 {
            return false;
        }
        i += 1;
    }
    true
}

/// The body of whitespace normalization: runs of whitespace become a single
/// boundary token, but only between words (`started` says a word character
/// has been seen, `gap` says whitespace has been seen since).
pub open spec fn norm_core(s: Seq<char>, started: bool, gap: bool) -> Seq<char>
    decreases s.len(),
{
    if s.len() == 0 {
        Seq::empty()
    } else if is_ws_char(s[0]) {
        norm_core(s.drop_first(), started, true)
    } else {
        let sep = if started && gap {
            seq!['#']
        } else {
            Seq::<char>::empty()
        };
        sep + seq![s[0]] + norm_core(s.drop_first(), true, false)
    }
}

/// Whitespace-normalized input: wrapped in boundary markers, with every
/// internal run of whitespace replaced by a single boundary marker.
pub open spec fn normalize(s: Seq<char>) -> Seq<char> {
    seq!['#'] + norm_core(s, false, false) + seq!['#']
}

/// Builds the whitespace-normalized form of `input`.
fn normalize_input(input: &str) -> (r: String)
    ensures
        r@ == normalize(input@),
{
    proof {
        reveal_strlit("#");
    }
    let n = input.unicode_len();
    let mut out = String::new();
    out.append("#");
    assert(out@ =~= seq!['#']);
    let mut started = false;
    let mut gap = false;
    let mut i: usize = 0;
    assert(input@.skip(0) =~= input@);
    while i < n
        invariant
            0 <= i <= n,
            n == input@.len(),
            out@ + norm_core(input@.skip(i as int), started, gap) == seq!['#'] + norm_core(
                input@,
                false,
                false,
            ),
        decreases n - i,
    {
        proof {
            reveal_strlit("#");
        }
        let ghost rest = input@.skip(i as int);
        assert(rest[0] == input@[i as int]);
        let c = input.get_char(i);
        if is_ws(c) {
            gap = true;
        } else {
            if started && gap {
                out.append("#");
            }
            let piece = input.substring_char(i, i + 1);
            assert(piece@ =~= seq![input@[i as int]]);
            out.append(piece);
            started = true;
            gap = false;
        }
        i += 1;
        assert(input@.skip(i as int) =~= rest.drop_first());
    }
    assert(input@.skip(i as int) =~= Seq::<char>::empty());
    out.append("#");
    assert(out@ =~= seq!['#'] + norm_core(input@, false, false) + seq!['#']);
    out
}

// ---------------------------------------------------------------------------
// The Word type
// ---------------------------------------------------------------------------

/// A word: its phones, together with the grapheme inventory (kept sorted by
/// descending length) and separator that produced them.
#[derive(Debug, PartialEq)]
pub struct Word {
    pub phones: Vec<String>,
    pub graphs: Vec<String>,
    pub separator: String,
}

/// Character-splitting used when the inventory has no polygraphs: every
/// character is a phone, except that a single-character separator is dropped.
pub open spec fn char_tokens(s: Seq<char>, sep: Seq<char>) -> Seq<Seq<char>>
    decreases s.len(),
{
    if s.len() == 0 {
        Seq::empty()
    } else if sep.len() == 1 && s[0] == sep[0] {
        char_tokens(s.drop_first(), sep)
    } else {
        seq![seq![s[0]]] + char_tokens(s.drop_first(), sep)
    }
}

/// The phones of a parsed word: the normalized input is segmented by plain
/// character splitting when the inventory has no polygraphs, and by
/// longest-match segmentation against the sorted inventory otherwise.
pub open spec fn word_phones(input: Seq<char>, graphs: Seq<Seq<char>>, sep: Seq<char>) -> Seq<
    Seq<char>,
> {
    let sorted = sort_graphs(graphs);
    let norm = normalize(input);
    if no_polygraphs_spec(sorted) {
        char_tokens(norm, sep)
    } else {
        tokenize(norm, sorted, sep)
    }
}

/// Word parsing stays inside the tokenizer's contract on this input.
pub open spec fn word_parse_ok(input: Seq<char>, graphs: Seq<Seq<char>>, sep: Seq<char>) -> bool {
    no_polygraphs_spec(sort_graphs(graphs)) || tokenize_ok(normalize(input), sort_graphs(graphs), sep)
}

/// Parses an input string into a word: the input is whitespace-normalized and
/// wrapped in boundary markers, the inventory is sorted by descending length,
/// and the result is segmented into phones.
pub fn parse(input: &String, graphs: Vec<String>, separator: String) -> (w: Word)
    requires
        word_parse_ok(input@, graphs.deep_view(), separator@),
    ensures
        w.phones.deep_view() == word_phones(input@, graphs.deep_view(), separator@),
        w.graphs.deep_view() == sort_graphs(graphs.deep_view()),
        w.separator@ == separator@,
{
    let norm = normalize_input(input.as_str());
    let graphs = sorted_graphs(graphs);
    if no_polygraphs(&graphs) {
        let ghost sep = separator@;
        let n = norm.as_str().unicode_len();
        let sep_is_char = separator.as_str().unicode_len() == 1;
        let mut phones: Vec<String> = Vec::new();
        let mut i: usize = 0;
        assert(norm@.skip(0) =~= norm@);
        assert(phones.deep_view() + char_tokens(norm@, sep) =~= char_tokens(norm@, sep));
        while i < n
            invariant
                0 <= i <= n,
                n == norm@.len(),
                sep == separator@,
                sep_is_char == (sep.len() == 1),
                phones.deep_view() + char_tokens(norm@.skip(i as int), sep) == char_tokens(
                    norm@,
                    sep,
                ),
            decreases n - i,
        {
            let ghost rest = norm@.skip(i as int);
            assert(rest[0] == norm@[i as int]);
            let ghost prev = phones.deep_view();
            let c = norm.as_str().get_char(i);
            if sep_is_char && c == separator.as_str().get_char(0) {
                // a single-character separator is dropped
            } else {
                let piece = norm.as_str().substring_char(i, i + 1).to_owned();
                assert(piece@ =~= seq![norm@[i as int]]);
                phones.push(piece);
                assert(phones.deep_view() =~= prev.push(seq![norm@[i as int]]));
                assert(prev + char_tokens(rest, sep) =~= phones.deep_view() + char_tokens(
                    rest.drop_first(),
                    sep,
                ));
            }
            i += 1;
            assert(norm@.skip(i as int) =~= rest.drop_first());
        }
        assert(norm@.skip(i as int) =~= Seq::<char>::empty());
        assert(phones.deep_view() =~= phones.deep_view() + char_tokens(
            norm@.skip(i as int),
            sep,
        ));
        Word { phones, graphs, separator }
    } else {
        let phones = into_phones(norm, &graphs, &separator);
        Word { phones, graphs, separator }
    }
}

// ---------------------------------------------------------------------------
// Rendering a word back to text
// ---------------------------------------------------------------------------

/// Some longer inventory entry has `p` as a strict prefix, so a separator is
/// needed after `p` to keep segmentation unambiguous.
pub open spec fn ambiguous_in(p: Seq<char>, graphs: Seq<Seq<char>>) -> bool {
    exists|i: int| 0 <= i < graphs.len() && is_prefix(#[trigger] graphs[i], p) && graphs[i] != p
}

/// Decides `ambiguous_in`.
fn is_ambiguous(p: &String, graphs: &Vec<String>) -> (r: bool)
    ensures
        r == ambiguous_in(p@, graphs.deep_view()),
{
    let ghost dv = graphs.deep_view();
    let mut i: usize = 0;
    while i < graphs.len()
        invariant
            0 <= i <= graphs.len(),
            dv == graphs.deep_view(),
            dv.len() == graphs.len(),
            forall|k: int| 0 <= k < i ==> !(is_prefix(#[trigger] dv[k], p@) && dv[k] != p@),
        decreases graphs.len() - i,
    {
        assert(dv[i as int] == graphs[i as int]@);
        assert(graphs[i as int]@.skip(0) =~= graphs[i as int]@);
        if prefix_at(graphs[i].as_str(), 0, p.as_str()) && !(graphs[i] == *p) {
            return true;
        }
        i += 1;
    }
    false
}

/// The raw rendering of a phone sequence: boundary tokens become a single
/// space; with polygraphs in the inventory, a separator is written after any
/// phone that is a strict prefix of some inventory entry.
pub open spec fn render_tokens(phones: Seq<Seq<char>>, graphs: Seq<Seq<char>>, sep: Seq<char>) -> Seq<
    char,
>
    decreases phones.len(),
{
    if phones.len() == 0 {
        Seq::empty()
    } else {
        let head = if phones[0] == boundary() {
            seq![' ']
        } else if !no_polygraphs_spec(graphs) && ambiguous_in(phones[0], graphs) {
            phones[0] + sep
        } else {
            phones[0]
        };
        head + render_tokens(phones.drop_first(), graphs, sep)
    }
}

/// `s` with leading whitespace removed.
pub open spec fn trim_start(s: Seq<char>) -> Seq<char>
    decreases s.len(),
{
    if s.len() > 0 && is_ws_char(s[0]) {
        trim_start(s.drop_first())
    } else {
        s
    }
}

/// `s` with trailing whitespace removed.
pub open spec fn trim_end(s: Seq<char>) -> Seq<char>
    decreases s.len(),
{
    if s.len() > 0 && is_ws_char(s.last()) {
        trim_end(s.drop_last())
    } else {
        s
    }
}

/// `s` with leading and trailing whitespace removed.
pub open spec fn trim(s: Seq<char>) -> Seq<char> {
    trim_end(trim_start(s))
}

/// The rendered text of a word.
pub open spec fn render_spec(phones: Seq<Seq<char>>, graphs: Seq<Seq<char>>, sep: Seq<char>) -> Seq<
    char,
> {
    trim(render_tokens(phones, graphs, sep))
}

/// `trim_start` drops exactly the whitespace prefix.
proof fn lemma_trim_start_at(s: Seq<char>, a: int)
    requires
        0 <= a <= s.len(),
        forall|k: int| 0 <= k < a ==> is_ws_char(s[k]),
        a < s.len() ==> !is_ws_char(s[a]),
    ensures
        trim_start(s) == s.skip(a),
    decreases a,
{
    if a == 0 {
        assert(s.skip(0) =~= s);
    } else {
        lemma_trim_start_at(s.drop_first(), a - 1);
        assert(s.drop_first().skip(a - 1) =~= s.skip(a));
    }
}

/// `trim_end` drops exactly the whitespace suffix.
proof fn lemma_trim_end_at(s: Seq<char>, b: int)
    requires
        0 <= b <= s.len(),
        forall|k: int| b <= k < s.len() ==> is_ws_char(s[k]),
        b > 0 ==> !is_ws_char(s[b - 1]),
    ensures
        trim_end(s) == s.take(b),
    decreases s.len() - b,
{
    if b == s.len() {
        assert(s.take(b) =~= s);
    } else {
        lemma_trim_end_at(s.drop_last(), b);
        assert(s.drop_last().take(b) =~= s.take(b));
    }
}

/// Trims leading and trailing whitespace from `s`.
fn trim_str(s: &str) -> (r: String)
    ensures
        r@ == trim(s@),
{
    let n = s.unicode_len();
    let mut a: usize = 0;
    while a < n && is_ws(s.get_char(a))
        invariant
            0 <= a <= n,
            n == s@.len(),
            forall|k: int| 0 <= k < a ==> is_ws_char(s@[k]),
        decreases n - a,
    {
        a += 1;
    }
    proof {
        lemma_trim_start_at(s@, a as int);
    }
    let mut b: usize = n;
    while b > a && is_ws(s.get_char(b - 1))
        invariant
            a <= b <= n,
            n == s@.len(),
            forall|k: int| b <= k < n ==> is_ws_char(s@[k]),
        decreases b,
    {
        b -= 1;
    }
    let r = s.substring_char(a, b).to_owned();
    proof {
        let st = s@.skip(a as int);
        lemma_trim_end_at(st, b - a);
        assert(st.take(b - a) =~= s@.subrange(a as int, b as int));
    }
    r
}

impl Word {
    /// Renders the word back to text: each phone's text is emitted, boundary
    /// tokens become a single space, a separator is re-inserted after
    /// ambiguous phones when the inventory has polygraphs, and the result is
    /// trimmed.
    pub fn render(&self) -> (r: String)
        ensures
            r@ == render_spec(self.phones.deep_view(), self.graphs.deep_view(), self.separator@),
    {
        proof {
            reveal_strlit(" ");
        }
        let ghost pv = self.phones.deep_view();
        let ghost gv = self.graphs.deep_view();
        let no_poly = no_polygraphs(&self.graphs);
        let mut out = String::new();
        let mut i: usize = 0;
        assert(pv.skip(0) =~= pv);
        assert(out@ + render_tokens(pv.skip(0), gv, self.separator@) =~= render_tokens(
            pv,
            gv,
            self.separator@,
        ));
        while i < self.phones.len()
            invariant
                0 <= i <= self.phones.len(),
                pv == self.phones.deep_view(),
                gv == self.graphs.deep_view(),
                pv.len() == self.phones.len(),
                no_poly == no_polygraphs_spec(gv),
                out@ + render_tokens(pv.skip(i as int), gv, self.separator@) == render_tokens(
                    pv,
                    gv,
                    self.separator@,
                ),
            decreases self.phones.len() - i,
        {
            proof {
                reveal_strlit(" ");
            }
            let ghost rest = pv.skip(i as int);
            assert(rest[0] == pv[i as int]);
            assert(pv[i as int] == self.phones[i as int]@);
            let phone = &self.phones[i];
            let is_bound = phone.as_str().unicode_len() == 1 && phone.as_str().get_char(0) == '#';
            assert(is_bound == (phone@ == boundary())) by {
                if phone@.len() == 1 && phone@[0] == '#' {
                    assert(phone@ =~= boundary());
                }
            }
            if is_bound {
                out.append(" ");
            } else {
                out.append(phone.as_str());
                if !no_poly && is_ambiguous(phone, &self.graphs) {
                    out.append(self.separator.as_str());
                }
            }
            i += 1;
            assert(pv.skip(i as int) =~= rest.drop_first());
        }
        assert(pv.skip(i as int) =~= Seq::<Seq<char>>::empty());
        assert(out@ =~= render_tokens(pv, gv, self.separator@));
        trim_str(out.as_str())
    }
}

// ---------------------------------------------------------------------------
// The round-trip law
// ---------------------------------------------------------------------------

/// Inserting a one-character entry keeps the inventory free of polygraphs.
proof fn lemma_insert_no_poly(g: Seq<char>, s: Seq<Seq<char>>)
    requires
        g.len() <= 1,
        no_polygraphs_spec(s),
    ensures
        no_polygraphs_spec(insert_desc(g, s)),
    decreases s.len(),
{
    if s.len() == 0 {
    } else if g.len() > s[0].len() {
    } else {
        assert(no_polygraphs_spec(s.drop_first())) by {
            assert(forall|i: int|
                0 <= i < s.drop_first().len() ==> (#[trigger] s.drop_first()[i]) == s[i + 1]);
        }
        lemma_insert_no_poly(g, s.drop_first());
        let r = seq![s[0]] + insert_desc(g, s.drop_first());
        assert forall|i: int| 0 <= i < r.len() implies (#[trigger] r[i]).len() <= 1 by {
            if i > 0 {
                assert(r[i] == insert_desc(g, s.drop_first())[i - 1]);
            }
        }
    }
}

/// Sorting keeps the inventory free of polygraphs.
proof fn lemma_sort_no_poly(graphs: Seq<Seq<char>>)
    requires
        no_polygraphs_spec(graphs),
    ensures
        no_polygraphs_spec(sort_graphs(graphs)),
    decreases graphs.len(),
{
    if graphs.len() > 0 {
        assert(no_polygraphs_spec(graphs.drop_last()));
        lemma_sort_no_poly(graphs.drop_last());
        lemma_insert_no_poly(graphs.last(), sort_graphs(graphs.drop_last()));
    }
}

/// Character splitting distributes over concatenation.
proof fn lemma_char_tokens_concat(a: Seq<char>, b: Seq<char>, sep: Seq<char>)
    ensures
        char_tokens(a + b, sep) == char_tokens(a, sep) + char_tokens(b, sep),
    decreases a.len(),
{
    if a.len() == 0 {
        assert(a + b =~= b);
        assert(char_tokens(a, sep) =~= Seq::<Seq<char>>::empty());
        assert(char_tokens(a + b, sep) =~= char_tokens(a, sep) + char_tokens(b, sep));
    } else {
        assert((a + b)[0] == a[0]);
        assert((a + b).drop_first() =~= a.drop_first() + b);
        lemma_char_tokens_concat(a.drop_first(), b, sep);
        assert(char_tokens(a + b, sep) =~= char_tokens(a, sep) + char_tokens(b, sep));
    }
}

/// Every token of character splitting is one character long, is not the
/// separator character, and is a character of the input.
proof fn lemma_char_tokens_shape(s: Seq<char>, sep: Seq<char>)
    ensures
        forall|i: int|
            0 <= i < char_tokens(s, sep).len() ==> (#[trigger] char_tokens(s, sep)[i]).len() == 1,
        forall|i: int|
            0 <= i < char_tokens(s, sep).len() ==> !(sep.len() == 1 && char_tokens(s, sep)[i][0]
                == sep[0]),
        forall|i: int|
            0 <= i < char_tokens(s, sep).len() ==> exists|j: int|
                0 <= j < s.len() && #[trigger] char_tokens(s, sep)[i] == seq![s[j]],
    decreases s.len(),
{
    if s.len() == 0 {
    } else {
        lemma_char_tokens_shape(s.drop_first(), sep);
        let r = char_tokens(s, sep);
        let rest = char_tokens(s.drop_first(), sep);
        if sep.len() == 1 && s[0] == sep[0] {
        } else {
            assert forall|i: int| 0 <= i < r.len() implies (#[trigger] r[i]).len() == 1 && !(
            sep.len() == 1 && r[i][0] == sep[0]) && (exists|j: int|
                0 <= j < s.len() && r[i] == seq![s[j]]) by {
                if i == 0 {
                    assert(r[0] == seq![s[0]]);
                } else {
                    assert(r[i] == rest[i - 1]);
                    let j0 = choose|j: int|
                        0 <= j < s.drop_first().len() && rest[i - 1] == seq![s.drop_first()[j]];
                    assert(r[i] == seq![s[j0 + 1]]);
                }
            }
        }
    }
}

/// When no character of the input is the separator character, character
/// splitting keeps every character as a token.
proof fn lemma_char_tokens_nodrop(s: Seq<char>, sep: Seq<char>)
    requires
        forall|j: int| 0 <= j < s.len() ==> !(sep.len() == 1 && #[trigger] s[j] == sep[0]),
    ensures
        char_tokens(s, sep).len() == s.len(),
        forall|i: int| 0 <= i < s.len() ==> #[trigger] char_tokens(s, sep)[i] == seq![s[i]],
    decreases s.len(),
{
    if s.len() > 0 {
        lemma_char_tokens_nodrop(s.drop_first(), sep);
        assert forall|i: int| 0 <= i < s.len() implies #[trigger] char_tokens(s, sep)[i] == seq![
            s[i],
        ] by {
            if i > 0 {
                assert(char_tokens(s, sep)[i] == char_tokens(s.drop_first(), sep)[i - 1]);
                assert(s.drop_first()[i - 1] == s[i]);
            }
        }
    }
}

/// Whitespace normalization emits no whitespace characters.
proof fn lemma_norm_core_no_ws(s: Seq<char>, started: bool, gap: bool)
    ensures
        forall|i: int|
            0 <= i < norm_core(s, started, gap).len() ==> !is_ws_char(
                #[trigger] norm_core(s, started, gap)[i],
            ),
    decreases s.len(),
{
    if s.len() == 0 {
        assert(norm_core(s, started, gap) =~= Seq::<char>::empty());
    } else if is_ws_char(s[0]) {
        lemma_norm_core_no_ws(s.drop_first(), started, true);
        assert(norm_core(s, started, gap) == norm_core(s.drop_first(), started, true));
    } else {
        lemma_norm_core_no_ws(s.drop_first(), true, false);
        let pre = if started && gap {
            seq!['#']
        } else {
            Seq::<char>::empty()
        };
        let r = pre + seq![s[0]] + norm_core(s.drop_first(), true, false);
        assert(norm_core(s, started, gap) == r);
        assert forall|i: int| 0 <= i < r.len() implies !is_ws_char(#[trigger] r[i]) by {
            if i < pre.len() {
                assert(r[i] == '#');
                assert(!is_ws_char('#'));
            } else if i == pre.len() {
                assert(r[i] == s[0]);
            } else {
                assert(r[i] == norm_core(s.drop_first(), true, false)[i - pre.len() - 1]);
            }
        }
    }
}

/// With no polygraphs in the inventory, rendering writes one character per
/// phone: a space for a boundary, the phone's character otherwise.
proof fn lemma_render_fast(p: Seq<Seq<char>>, graphs: Seq<Seq<char>>, sep: Seq<char>)
    requires
        no_polygraphs_spec(graphs),
        forall|i: int| 0 <= i < p.len() ==> (#[trigger] p[i]).len() == 1,
    ensures
        render_tokens(p, graphs, sep).len() == p.len(),
        forall|i: int|
            0 <= i < p.len() ==> #[trigger] render_tokens(p, graphs, sep)[i] == (if p[i]
                == boundary() {
                ' '
            } else {
                p[i][0]
            }),
    decreases p.len(),
{
    if p.len() > 0 {
        assert(forall|i: int|
            0 <= i < p.drop_first().len() ==> (#[trigger] p.drop_first()[i]).len() == 1);
        lemma_render_fast(p.drop_first(), graphs, sep);
        let head = if p[0] == boundary() {
            seq![' ']
        } else {
            p[0]
        };
        assert(head.len() == 1);
        assert(render_tokens(p, graphs, sep) == head + render_tokens(p.drop_first(), graphs, sep));
        assert forall|i: int|
            0 <= i < p.len() implies #[trigger] render_tokens(p, graphs, sep)[i] == (if p[i]
            == boundary() {
            ' '
        } else {
            p[i][0]
        }) by {
            if i > 0 {
                assert(render_tokens(p, graphs, sep)[i] == render_tokens(
                    p.drop_first(),
                    graphs,
                    sep,
                )[i - 1]);
                assert(p.drop_first()[i - 1] == p[i]);
            }
        }
    }
}

/// The substitution a normalization pass performs on already-normal text:
/// each space becomes a boundary character.
pub open spec fn space_to_boundary(m: Seq<char>) -> Seq<char> {
    Seq::new(m.len(), |i: int| if m[i] == ' ' { '#' } else { m[i] })
}

/// On text whose only whitespace is single interior spaces, normalization is
/// exactly that substitution.
proof fn lemma_norm_core_simple(m: Seq<char>, started: bool, gap: bool)
    requires
        forall|i: int| 0 <= i < m.len() ==> (is_ws_char(#[trigger] m[i]) ==> m[i] == ' '),
        forall|i: int| 0 <= i < m.len() - 1 ==> !(#[trigger] m[i] == ' ' && m[i + 1] == ' '),
        m.len() > 0 ==> m.last() != ' ',
        m.len() > 0 && (!started || gap) ==> m[0] != ' ',
    ensures
        norm_core(m, started, gap) == (if started && gap && m.len() > 0 {
            seq!['#']
        } else {
            Seq::<char>::empty()
        }) + space_to_boundary(m),
    decreases m.len(),
{
    if m.len() == 0 {
        assert(norm_core(m, started, gap) =~= (if started && gap && m.len() > 0 {
            seq!['#']
        } else {
            Seq::<char>::empty()
        }) + space_to_boundary(m));
    } else if m[0] == ' ' {
        assert(is_ws_char(' '));
        assert(started && !gap);
        let d = m.drop_first();
        assert(m.len() >= 2);
        assert(d[0] == m[1]);
        assert(m[1] != ' ');
        assert(forall|i: int| 0 <= i < d.len() - 1 ==> !(#[trigger] d[i] == ' ' && d[i + 1] == ' '))
            by {
            assert(forall|i: int| 0 <= i < d.len() ==> #[trigger] d[i] == m[i + 1]);
        }
        lemma_norm_core_simple(d, started, true);
        assert(space_to_boundary(m) =~= seq!['#'] + space_to_boundary(d));
        assert(norm_core(m, started, gap) =~= space_to_boundary(m));
    } else {
        assert(!is_ws_char(m[0])) by {
            if is_ws_char(m[0]) {
                assert(m[0] == ' ');
            }
        }
        let d = m.drop_first();
        assert(forall|i: int| 0 <= i < d.len() ==> #[trigger] d[i] == m[i + 1]);
        assert(forall|i: int| 0 <= i < d.len() - 1 ==> !(#[trigger] d[i] == ' ' && d[i + 1] == ' '));
        lemma_norm_core_simple(d, true, false);
        let pre = if started && gap {
            seq!['#']
        } else {
            Seq::<char>::empty()
        };
        assert(norm_core(m, started, gap) == pre + seq![m[0]] + norm_core(d, true, false));
        assert(space_to_boundary(m) =~= seq![m[0]] + space_to_boundary(d));
        assert(norm_core(m, started, gap) =~= pre + space_to_boundary(m));
    }
}

/// The inventory is ordered by descending length.
pub open spec fn sorted_desc(graphs: Seq<Seq<char>>) -> bool {
    forall|i: int, j: int|
        0 <= i < j < graphs.len() ==> (#[trigger] graphs[i]).len() >= (#[trigger] graphs[j]).len()
}

/// Inserting keeps the descending order.
proof fn lemma_insert_desc_sorted(g: Seq<char>, s: Seq<Seq<char>>)
    requires
        sorted_desc(s),
    ensures
        sorted_desc(insert_desc(g, s)),
        insert_desc(g, s).len() == s.len() + 1,
        insert_desc(g, s).contains(g),
        forall|x: Seq<char>| s.contains(x) ==> insert_desc(g, s).contains(x),
        forall|x: Seq<char>| insert_desc(g, s).contains(x) ==> (x == g || s.contains(x)),
    decreases s.len(),
{
    if s.len() == 0 {
        assert forall|x: Seq<char>| insert_desc(g, s).contains(x) implies (x == g || s.contains(
            x,
        )) by {
            let k = choose|k: int| 0 <= k < insert_desc(g, s).len() && insert_desc(g, s)[k] == x;
            assert(insert_desc(g, s)[0] == g);
        }
        assert(insert_desc(g, s)[0] == g);
    } else if g.len() > s[0].len() {
        let r = seq![g] + s;
        assert forall|i: int, j: int|
            0 <= i < j < r.len() implies (#[trigger] r[i]).len() >= (#[trigger] r[j]).len() by {
            if i == 0 {
                assert(r[j] == s[j - 1]);
                if j - 1 > 0 {
                    assert(s[0].len() >= s[j - 1].len());
                }
            } else {
                assert(r[i] == s[i - 1]);
                assert(r[j] == s[j - 1]);
            }
        }
        assert forall|x: Seq<char>| r.contains(x) implies (x == g || s.contains(x)) by {
            let k = choose|k: int| 0 <= k < r.len() && r[k] == x;
            if k > 0 {
                assert(s[k - 1] == x);
            }
        }
        assert forall|x: Seq<char>| (x == g || s.contains(x)) implies r.contains(x) by {
            if x == g {
                assert(r[0] == x);
            } else {
                let k = choose|k: int| 0 <= k < s.len() && s[k] == x;
                assert(r[k + 1] == x);
            }
        }
    } else {
        let d = s.drop_first();
        assert(forall|i: int| 0 <= i < d.len() ==> #[trigger] d[i] == s[i + 1]);
        lemma_insert_desc_sorted(g, d);
        let t = insert_desc(g, d);
        let r = seq![s[0]] + t;
        assert forall|i: int, j: int|
            0 <= i < j < r.len() implies (#[trigger] r[i]).len() >= (#[trigger] r[j]).len() by {
            if i == 0 {
                assert(r[j] == t[j - 1]);
                assert(t.contains(t[j - 1]));
                assert(t[j - 1] == g || d.contains(t[j - 1]));
                if d.contains(t[j - 1]) {
                    let k = choose|k: int| 0 <= k < d.len() && d[k] == t[j - 1];
                    assert(s[0].len() >= s[k + 1].len());
                }
            } else {
                assert(r[i] == t[i - 1]);
                assert(r[j] == t[j - 1]);
            }
        }
        assert forall|x: Seq<char>| r.contains(x) implies (x == g || s.contains(x)) by {
            let k = choose|k: int| 0 <= k < r.len() && r[k] == x;
            if k == 0 {
                assert(s[0] == x);
            } else {
                assert(t[k - 1] == x);
                assert(t.contains(x));
                if d.contains(x) {
                    let m = choose|m: int| 0 <= m < d.len() && d[m] == x;
                    assert(s[m + 1] == x);
                }
            }
        }
        assert forall|x: Seq<char>| (x == g || s.contains(x)) implies r.contains(x) by {
            if x == g {
                assert(t.contains(x));
                let m = choose|m: int| 0 <= m < t.len() && t[m] == x;
                assert(r[m + 1] == x);
            } else {
                let k = choose|k: int| 0 <= k < s.len() && s[k] == x;
                if k == 0 {
                    assert(r[0] == x);
                } else {
                    assert(d[k - 1] == x);
                    assert(d.contains(x));
                    assert(t.contains(x));
                    let m = choose|m: int| 0 <= m < t.len() && t[m] == x;
                    assert(r[m + 1] == x);
                }
            }
        }
    }
}

/// The sorted inventory is ordered by descending length and holds exactly the
/// inventory's entries.
pub proof fn lemma_sort_graphs_sorted(graphs: Seq<Seq<char>>)
    ensures
        sorted_desc(sort_graphs(graphs)),
        forall|x: Seq<char>| sort_graphs(graphs).contains(x) <==> graphs.contains(x),
    decreases graphs.len(),
{
    if graphs.len() == 0 {
        assert forall|x: Seq<char>| sort_graphs(graphs).contains(x) implies graphs.contains(x) by {
            let k = choose|k: int|
                0 <= k < sort_graphs(graphs).len() && sort_graphs(graphs)[k] == x;
        }
        assert(forall|x: Seq<char>| !graphs.contains(x));
    } else {
        let d = graphs.drop_last();
        lemma_sort_graphs_sorted(d);
        lemma_insert_desc_sorted(graphs.last(), sort_graphs(d));
        assert forall|x: Seq<char>| sort_graphs(graphs).contains(x) implies graphs.contains(x) by {
            if x == graphs.last() {
                assert(graphs[graphs.len() - 1] == x);
            } else {
                assert(sort_graphs(d).contains(x));
                assert(d.contains(x));
                let k = choose|k: int| 0 <= k < d.len() && d[k] == x;
                assert(graphs[k] == x);
            }
        }
        assert forall|x: Seq<char>| graphs.contains(x) implies sort_graphs(graphs).contains(x) by {
            let k = choose|k: int| 0 <= k < graphs.len() && graphs[k] == x;
            if k == graphs.len() - 1 {
                assert(x == graphs.last());
            } else {
                assert(d[k] == x);
                assert(d.contains(x));
                assert(sort_graphs(d).contains(x));
            }
        }
    }
}

/// When nothing in the inventory prefixes the input, the search fails.
proof fn lemma_first_graph_none(s: Seq<char>, graphs: Seq<Seq<char>>, i: int)
    requires
        forall|j: int| 0 <= j < graphs.len() ==> !is_prefix(s, #[trigger] graphs[j]),
    ensures
        first_graph_from(s, graphs, i) is None,
    decreases graphs.len() - i,
{
    if 0 <= i < graphs.len() {
        lemma_first_graph_none(s, graphs, i + 1);
    }
}

/// On a length-descending inventory that holds `g` at index `k`, where `g`
/// prefixes the input and no longer entry does, the search returns exactly
/// `g`.
proof fn lemma_first_graph_exact(s: Seq<char>, graphs: Seq<Seq<char>>, g: Seq<char>, k: int, i: int)
    requires
        sorted_desc(graphs),
        is_prefix(s, g),
        0 <= i <= k < graphs.len(),
        graphs[k] == g,
        forall|j: int|
            0 <= j < graphs.len() && (#[trigger] graphs[j]).len() > g.len() ==> !is_prefix(
                s,
                graphs[j],
            ),
    ensures
        first_graph_from(s, graphs, i) == Some(g),
    decreases graphs.len() - i,
{
    if is_prefix(s, graphs[i]) {
        assert(graphs[i].len() <= g.len()) by {
            assert(graphs[i].len() > g.len() ==> !is_prefix(s, graphs[i]));
        }
        if i < k {
            assert(graphs[i].len() >= graphs[k].len());
        }
        assert(graphs[i] =~= g) by {
            assert(graphs[i].len() == g.len());
            assert(graphs[i] == s.take(graphs[i].len() as int));
            assert(g == s.take(g.len() as int));
        }
    } else {
        assert(i != k);
        lemma_first_graph_exact(s, graphs, g, k, i + 1);
    }
}

/// A grapheme inventory and separator fit for round-tripping: entries are
/// nonempty and hold no boundary, whitespace or separator characters; the
/// separator is nonempty and holds no boundary or whitespace character.
pub open spec fn graphs_sep_ok(graphs: Seq<Seq<char>>, sep: Seq<char>) -> bool {
    &&& sep.len() >= 1
    &&& forall|k: int| 0 <= k < sep.len() ==> !is_ws_char(#[trigger] sep[k]) && sep[k] != '#'
    &&& forall|i: int, k: int|
        0 <= i < graphs.len() && 0 <= k < graphs[i].len() ==> !is_ws_char(#[trigger] graphs[i][k])
            && graphs[i][k] != '#' && !sep.contains(graphs[i][k])
    &&& forall|i: int| 0 <= i < graphs.len() ==> (#[trigger] graphs[i]).len() >= 1
}

/// A phone a round-trippable word may hold: a boundary, an inventory entry,
/// or a single character that is not whitespace and not the boundary
/// character.
pub open spec fn canonical_phone(p: Seq<char>, graphs: Seq<Seq<char>>) -> bool {
    ||| p == boundary()
    ||| graphs.contains(p)
    ||| (p.len() == 1 && !is_ws_char(p[0]) && p[0] != '#')
}

/// No two boundary tokens stand side by side.
pub open spec fn no_adjacent_boundaries(p: Seq<Seq<char>>) -> bool {
    forall|i: int|
        0 <= i < p.len() - 1 ==> !(#[trigger] p[i] == boundary() && p[i + 1] == boundary())
}

/// The rendered text of a phone sequence with boundaries written as `#`
/// instead of a space: exactly what one normalization pass makes of the
/// rendering.
pub open spec fn render_hash(
    phones: Seq<Seq<char>>,
    graphs: Seq<Seq<char>>,
    sep: Seq<char>,
) -> Seq<char>
    decreases phones.len(),
{
    if phones.len() == 0 {
        Seq::empty()
    } else {
        let head = if phones[0] == boundary() {
            seq!['#']
        } else if !no_polygraphs_spec(graphs) && ambiguous_in(phones[0], graphs) {
            phones[0] + sep
        } else {
            phones[0]
        };
        head + render_hash(phones.drop_first(), graphs, sep)
    }
}

/// Rendering distributes over concatenation.
proof fn lemma_render_tokens_concat(a: Seq<Seq<char>>, b: Seq<Seq<char>>, graphs: Seq<Seq<char>>, sep: Seq<char>)
    ensures
        render_tokens(a + b, graphs, sep) == render_tokens(a, graphs, sep) + render_tokens(
            b,
            graphs,
            sep,
        ),
    decreases a.len(),
{
    if a.len() == 0 {
        assert(a + b =~= b);
        assert(render_tokens(a, graphs, sep) =~= Seq::<char>::empty());
        assert(render_tokens(a + b, graphs, sep) =~= render_tokens(a, graphs, sep)
            + render_tokens(b, graphs, sep));
    } else {
        assert((a + b)[0] == a[0]);
        assert((a + b).drop_first() =~= a.drop_first() + b);
        lemma_render_tokens_concat(a.drop_first(), b, graphs, sep);
        assert(render_tokens(a + b, graphs, sep) =~= render_tokens(a, graphs, sep)
            + render_tokens(b, graphs, sep));
    }
}

/// The structure of rendered text over canonical phones: one normalization
/// pass turns it into the `#`-written rendering, its only whitespace is
/// single interior spaces standing for boundary tokens, and it starts and
/// ends with a word character whenever the outer phones are not boundaries.
proof fn lemma_render_structure(p: Seq<Seq<char>>, graphs: Seq<Seq<char>>, sep: Seq<char>)
    requires
        graphs_sep_ok(graphs, sep),
        forall|i: int| 0 <= i < p.len() ==> canonical_phone(#[trigger] p[i], graphs),
        no_adjacent_boundaries(p),
    ensures
        space_to_boundary(render_tokens(p, graphs, sep)) == render_hash(p, graphs, sep),
        render_tokens(p, graphs, sep).len() >= p.len(),
        forall|k: int|
            0 <= k < render_tokens(p, graphs, sep).len() ==> (is_ws_char(
                #[trigger] render_tokens(p, graphs, sep)[k],
            ) ==> render_tokens(p, graphs, sep)[k] == ' '),
        forall|k: int|
            0 <= k < render_tokens(p, graphs, sep).len() - 1 ==> !(
            #[trigger] render_tokens(p, graphs, sep)[k] == ' ' && render_tokens(
                p,
                graphs,
                sep,
            )[k + 1] == ' '),
        p.len() > 0 ==> (render_tokens(p, graphs, sep)[0] == ' ' <==> p[0] == boundary()),
        p.len() > 0 && p[0] != boundary() ==> !is_ws_char(render_tokens(p, graphs, sep)[0]),
        p.len() > 0 && p.last() != boundary() ==> !is_ws_char(
            render_tokens(p, graphs, sep).last(),
        ),
        p.len() > 0 && p.last() == boundary() ==> render_tokens(p, graphs, sep).last() == ' ',
    decreases p.len(),
{
    if p.len() == 0 {
        assert(space_to_boundary(render_tokens(p, graphs, sep)) =~= render_hash(p, graphs, sep));
    } else {
        let d = p.drop_first();
        assert(forall|i: int| 0 <= i < d.len() ==> #[trigger] d[i] == p[i + 1]);
        lemma_render_structure(d, graphs, sep);
        let head = if p[0] == boundary() {
            seq![' ']
        } else if !no_polygraphs_spec(graphs) && ambiguous_in(p[0], graphs) {
            p[0] + sep
        } else {
            p[0]
        };
        let hh = if p[0] == boundary() {
            seq!['#']
        } else if !no_polygraphs_spec(graphs) && ambiguous_in(p[0], graphs) {
            p[0] + sep
        } else {
            p[0]
        };
        let rest = render_tokens(d, graphs, sep);
        let r = head + rest;
        assert(render_tokens(p, graphs, sep) == r);
        assert(render_hash(p, graphs, sep) == hh + render_hash(d, graphs, sep));

        // every character of a non-boundary head is a word character
        if p[0] != boundary() {
            assert(canonical_phone(p[0], graphs));
            assert forall|k: int| 0 <= k < head.len() implies !is_ws_char(#[trigger] head[k])
                && head[k] != ' ' by {
                let c = head[k];
                if k < p[0].len() {
                    assert(c == p[0][k]);
                    if graphs.contains(p[0]) {
                        let gi = choose|gi: int| 0 <= gi < graphs.len() && graphs[gi] == p[0];
                        assert(!is_ws_char(graphs[gi][k]));
                    } else {
                        assert(p[0].len() == 1 && !is_ws_char(p[0][0]));
                    }
                } else {
                    assert(c == sep[k - p[0].len()]);
                }
                assert(!is_ws_char(c));
                assert(c != ' ') by {
                    if c == ' ' {
                        assert(is_ws_char(' '));
                    }
                }
            }
            assert(head.len() >= 1) by {
                if graphs.contains(p[0]) {
                    let gi = choose|gi: int| 0 <= gi < graphs.len() && graphs[gi] == p[0];
                    assert(graphs[gi].len() >= 1);
                } else {
                    assert(p[0].len() == 1);
                }
            }
        }

        // the substitution maps the head to the `#`-written head
        assert(space_to_boundary(r) =~= space_to_boundary(head) + space_to_boundary(rest)) by {
            assert(space_to_boundary(r).len() == r.len());
        }
        assert(space_to_boundary(head) =~= hh);
        assert(space_to_boundary(r) =~= render_hash(p, graphs, sep));

        // whitespace characters are single interior spaces
        assert forall|k: int| 0 <= k < r.len() implies (is_ws_char(#[trigger] r[k]) ==> r[k]
            == ' ') by {
            if k < head.len() {
                assert(r[k] == head[k]);
            } else {
                assert(r[k] == rest[k - head.len()]);
            }
        }
        assert forall|k: int| 0 <= k < r.len() - 1 implies !(#[trigger] r[k] == ' ' && r[k + 1]
            == ' ') by {
            if k + 1 < head.len() {
                assert(r[k] == head[k] && r[k + 1] == head[k + 1]);
                if p[0] != boundary() {
                } else {
                    assert(head.len() == 1);
                }
            } else if k + 1 == head.len() {
                assert(r[k] == head[k]);
                assert(r[k + 1] == rest[0]);
                if p[0] == boundary() {
                    assert(d.len() > 0);
                    assert(d[0] == p[1]);
                    assert(p[1] != boundary());
                    assert(!is_ws_char(rest[0]));
                    assert(rest[0] != ' ') by {
                        if rest[0] == ' ' {
                            assert(is_ws_char(' '));
                        }
                    }
                }
            } else {
                assert(r[k] == rest[k - head.len()]);
                assert(r[k + 1] == rest[k + 1 - head.len()]);
            }
        }

        // first and last characters
        assert(r[0] == head[0]);
        if p[0] == boundary() {
            assert(r[0] == ' ');
        } else {
            assert(!is_ws_char(r[0]));
            assert(r[0] != ' ') by {
                if r[0] == ' ' {
                    assert(is_ws_char(' '));
                }
            }
        }
        if d.len() > 0 {
            assert(rest.len() >= d.len() >= 1);
            assert(r.last() == rest.last());
            assert(d.last() == p.last());
        } else {
            assert(rest =~= Seq::<char>::empty());
            assert(r =~= head);
            if p[0] != boundary() {
                assert(r.last() == head[head.len() - 1]);
            }
        }
    }
}

/// A leading separator occurrence is consumed before matching, so it can be
/// dropped outright when no second one follows.
proof fn lemma_tokenize_sep_skip(x: Seq<char>, graphs: Seq<Seq<char>>, sep: Seq<char>)
    requires
        sep.len() >= 1,
        !is_prefix(x, sep),
    ensures
        tokenize(sep + x, graphs, sep) == tokenize(x, graphs, sep),
{
    let s = sep + x;
    assert(s.len() > 0);
    assert(is_prefix(s, sep)) by {
        assert(s.take(sep.len() as int) =~= sep);
    }
    assert(strip_sep(s, sep) =~= x);
    assert(strip_sep(x, sep) == x);
    if x.len() == 0 {
        assert(tokenize(x, graphs, sep) =~= Seq::<Seq<char>>::empty());
    }
}

/// No entry of the inventory prefixes text that starts with a boundary
/// character or a separator character.
proof fn lemma_no_graph_at(s: Seq<char>, graphs: Seq<Seq<char>>, sep: Seq<char>)
    requires
        graphs_sep_ok(graphs, sep),
        s.len() > 0,
        s[0] == '#' || sep.contains(s[0]),
    ensures
        first_graph(s, graphs) is None,
{
    assert forall|j: int| 0 <= j < graphs.len() implies !is_prefix(s, #[trigger] graphs[j]) by {
        if is_prefix(s, graphs[j]) {
            assert(graphs[j].len() >= 1);
            assert(graphs[j][0] == s.take(graphs[j].len() as int)[0]);
            assert(graphs[j][0] == s[0]);
        }
    }
    lemma_first_graph_none(s, graphs, 0);
}

/// Tokenizing the `#`-written rendering of canonical phones gives exactly
/// those phones back, as long as no suffix of that rendering begins with the
/// separator by accident.
proof fn lemma_retokenize(p: Seq<Seq<char>>, graphs: Seq<Seq<char>>, sep: Seq<char>)
    requires
        graphs_sep_ok(graphs, sep),
        sorted_desc(graphs),
        forall|i: int| 0 <= i < p.len() ==> canonical_phone(#[trigger] p[i], graphs),
        forall|i: int|
            0 <= i <= p.len() ==> !is_prefix(
                render_hash(#[trigger] p.skip(i), graphs, sep),
                sep,
            ),
    ensures
        tokenize(render_hash(p, graphs, sep), graphs, sep) == p,
    decreases p.len(),
{
    if p.len() == 0 {
        assert(render_hash(p, graphs, sep) =~= Seq::<char>::empty());
        assert(tokenize(Seq::<char>::empty(), graphs, sep) =~= p);
    } else {
        let d = p.drop_first();
        assert(forall|i: int| 0 <= i < d.len() ==> #[trigger] d[i] == p[i + 1]);
        assert(forall|i: int| 0 <= i <= d.len() ==> #[trigger] d.skip(i) =~= p.skip(i + 1));
        assert forall|i: int| 0 <= i <= d.len() implies !is_prefix(
            render_hash(#[trigger] d.skip(i), graphs, sep),
            sep,
        ) by {
            assert(d.skip(i) =~= p.skip(i + 1));
            assert(!is_prefix(render_hash(p.skip(i + 1), graphs, sep), sep));
        }
        lemma_retokenize(d, graphs, sep);

        let ins = !no_polygraphs_spec(graphs) && ambiguous_in(p[0], graphs);
        let head = if p[0] == boundary() {
            seq!['#']
        } else if ins {
            p[0] + sep
        } else {
            p[0]
        };
        let tail = render_hash(d, graphs, sep);
        let s = head + tail;
        assert(p.skip(0) =~= p);
        assert(render_hash(p, graphs, sep) == s);
        assert(s.len() > 0);
        assert(!is_prefix(s, sep));
        assert(strip_sep(s, sep) == s);

        if p[0] == boundary() {
            assert(s[0] == '#');
            lemma_no_graph_at(s, graphs, sep);
            assert(s.take(1) =~= boundary());
            assert(s.skip(1) =~= tail);
            assert(tokenize(s, graphs, sep) == seq![boundary()] + tokenize(tail, graphs, sep));
            assert(seq![boundary()] + d =~= p);
        } else {
            assert(canonical_phone(p[0], graphs));
            let glen = p[0].len() as int;
            assert(glen >= 1) by {
                if graphs.contains(p[0]) {
                    let gi = choose|gi: int| 0 <= gi < graphs.len() && graphs[gi] == p[0];
                    assert(graphs[gi].len() >= 1);
                }
            }
            assert(is_prefix(s, p[0])) by {
                assert(s.take(glen) =~= p[0]);
            }
            // no longer inventory entry matches: it would have to reach into
            // the separator or show that the phone was ambiguous
            assert forall|j: int|
                0 <= j < graphs.len() && (#[trigger] graphs[j]).len() > p[0].len()
                    implies !is_prefix(s, graphs[j]) by {
                if is_prefix(s, graphs[j]) {
                    let g = graphs[j];
                    assert(g == s.take(g.len() as int));
                    assert(is_prefix(g, p[0])) by {
                        assert(g.take(glen) =~= p[0]);
                    }
                    assert(g != p[0]);
                    assert(ambiguous_in(p[0], graphs));
                    assert(!no_polygraphs_spec(graphs)) by {
                        assert(g.len() > p[0].len() >= 1);
                    }
                    assert(ins);
                    assert(g[glen] == s[glen]);
                    assert(s[glen] == sep[0]);
                    assert(sep.contains(g[glen])) by {
                        assert(sep[0] == g[glen]);
                    }
                }
            }
            let after = s.skip(glen);
            assert(after =~= if ins {
                sep + tail
            } else {
                tail
            });
            if graphs.contains(p[0]) {
                let k = choose|k: int| 0 <= k < graphs.len() && graphs[k] == p[0];
                lemma_first_graph_exact(s, graphs, p[0], k, 0);
                assert(tokenize(s, graphs, sep) == seq![p[0]] + tokenize(after, graphs, sep));
            } else {
                // a single character that is no entry: nothing matches
                assert forall|j: int| 0 <= j < graphs.len() implies !is_prefix(
                    s,
                    #[trigger] graphs[j],
                ) by {
                    if is_prefix(s, graphs[j]) {
                        let g = graphs[j];
                        if g.len() == 1 {
                            assert(g =~= p[0]) by {
                                assert(g == s.take(1));
                                assert(p[0] == s.take(glen));
                            }
                            assert(graphs.contains(p[0]));
                        } else {
                            assert(g.len() > p[0].len());
                        }
                    }
                }
                lemma_first_graph_none(s, graphs, 0);
                assert(s.take(1) =~= p[0]);
                assert(tokenize(s, graphs, sep) == seq![p[0]] + tokenize(
                    s.skip(1),
                    graphs,
                    sep,
                ));
                assert(s.skip(1) =~= after);
            }
            if ins {
                assert(d.skip(0) =~= d);
                lemma_tokenize_sep_skip(tail, graphs, sep);
            }
            assert(tokenize(after, graphs, sep) == d);
            assert(seq![p[0]] + d =~= p);
        }
    }
}

/// A found grapheme is an entry of the inventory.
proof fn lemma_first_graph_member(s: Seq<char>, graphs: Seq<Seq<char>>, i: int)
    requires
        first_graph_from(s, graphs, i) is Some,
    ensures
        graphs.contains(first_graph_from(s, graphs, i)->Some_0),
    decreases graphs.len() - i,
{
    if i < 0 || i >= graphs.len() {
    } else if is_prefix(s, graphs[i]) {
        assert(graphs[i] == first_graph_from(s, graphs, i)->Some_0);
    } else {
        lemma_first_graph_member(s, graphs, i + 1);
    }
}

/// Every token the tokenizer produces from boundary-or-word text is
/// canonical: an inventory entry, a boundary, or a single word character.
proof fn lemma_tokenize_canonical(s: Seq<char>, graphs: Seq<Seq<char>>, sep: Seq<char>)
    requires
        forall|j: int| 0 <= j < s.len() ==> (#[trigger] s[j] == '#' || !is_ws_char(s[j])),
    ensures
        forall|i: int|
            0 <= i < tokenize(s, graphs, sep).len() ==> canonical_phone(
                #[trigger] tokenize(s, graphs, sep)[i],
                graphs,
            ),
    decreases s.len(),
{
    if s.len() == 0 {
    } else {
        let s2 = strip_sep(s, sep);
        assert(forall|j: int| 0 <= j < s2.len() ==> (#[trigger] s2[j] == '#' || !is_ws_char(s2[j])))
            by {
            if sep.len() > 0 && is_prefix(s, sep) {
                assert(forall|j: int|
                    0 <= j < s2.len() ==> #[trigger] s2[j] == s[j + sep.len()]);
            }
        }
        if s2.len() == 0 {
        } else {
            match first_graph(s2, graphs) {
                Some(g) => {
                    if 0 < g.len() <= s2.len() {
                        lemma_first_graph_member(s2, graphs, 0);
                        lemma_tokenize_canonical(s2.skip(g.len() as int), graphs, sep);
                        let r = tokenize(s, graphs, sep);
                        let rest = tokenize(s2.skip(g.len() as int), graphs, sep);
                        assert forall|i: int| 0 <= i < r.len() implies canonical_phone(
                            #[trigger] r[i],
                            graphs,
                        ) by {
                            if i == 0 {
                                assert(r[0] == g);
                            } else {
                                assert(r[i] == rest[i - 1]);
                            }
                        }
                    }
                },
                None => {
                    lemma_tokenize_canonical(s2.skip(1), graphs, sep);
                    let r = tokenize(s, graphs, sep);
                    let rest = tokenize(s2.skip(1), graphs, sep);
                    assert forall|i: int| 0 <= i < r.len() implies canonical_phone(
                        #[trigger] r[i],
                        graphs,
                    ) by {
                        if i == 0 {
                            assert(r[0] == s2.take(1));
                            assert(s2.take(1)[0] == s2[0]);
                            if s2[0] == '#' {
                                assert(s2.take(1) =~= boundary());
                            } else {
                                assert(s2.take(1).len() == 1 && !is_ws_char(s2.take(1)[0]));
                            }
                        } else {
                            assert(r[i] == rest[i - 1]);
                        }
                    }
                },
            }
        }
    }
}

/// Tokenizing text that ends with a boundary character yields at least one
/// token, and a boundary token last.
proof fn lemma_tokenize_last_boundary(s: Seq<char>, graphs: Seq<Seq<char>>, sep: Seq<char>)
    requires
        s.len() > 0,
        s.last() == '#',
        tokenize_ok(s, graphs, sep),
        graphs_sep_ok(graphs, sep),
    ensures
        tokenize(s, graphs, sep).len() >= 1,
        tokenize(s, graphs, sep).last() == boundary(),
    decreases s.len(),
{
    let s2 = strip_sep(s, sep);
    assert(s2.len() > 0);
    assert(s2.last() == '#') by {
        if sep.len() > 0 && is_prefix(s, sep) {
            assert(s2 == s.skip(sep.len() as int));
            assert(s2[s2.len() - 1] == s[s.len() - 1]);
        }
    }
    match first_graph(s2, graphs) {
        Some(g) => {
            assert(0 < g.len() <= s2.len());
            lemma_first_graph_member(s2, graphs, 0);
            lemma_first_graph_is_prefix(s2, graphs, 0);
            let gi = choose|gi: int| 0 <= gi < graphs.len() && graphs[gi] == g;
            assert(g.len() < s2.len()) by {
                if g.len() == s2.len() {
                    assert(g == s2.take(g.len() as int));
                    assert(s2.take(s2.len() as int) =~= s2);
                    assert(g[g.len() - 1] == '#');
                    assert(graphs[gi][g.len() - 1] != '#');
                }
            }
            let rest = s2.skip(g.len() as int);
            assert(rest.len() > 0);
            assert(rest.last() == s2[s2.len() - 1]);
            lemma_tokenize_last_boundary(rest, graphs, sep);
            let r = tokenize(s, graphs, sep);
            assert(r == seq![g] + tokenize(rest, graphs, sep));
            assert(r.last() == tokenize(rest, graphs, sep).last());
        },
        None => {
            if s2.len() == 1 {
                assert(s2.take(1) =~= boundary()) by {
                    assert(s2.take(1)[0] == s2[0]);
                    assert(s2[0] == s2.last());
                }
                assert(s2.skip(1).len() == 0);
                assert(tokenize(s2.skip(1), graphs, sep) =~= Seq::<Seq<char>>::empty());
                let r = tokenize(s, graphs, sep);
                assert(r =~= seq![s2.take(1)]);
            } else {
                let rest = s2.skip(1);
                assert(rest.len() > 0);
                assert(rest.last() == s2[s2.len() - 1]);
                lemma_tokenize_last_boundary(rest, graphs, sep);
                let r = tokenize(s, graphs, sep);
                assert(r == seq![s2.take(1)] + tokenize(rest, graphs, sep));
                assert(r.last() == tokenize(rest, graphs, sep).last());
            }
        },
    }
}

/// Round-trip law for inventories with polygraphs (some entries overlap as
/// prefixes of others): parsing the rendered form of a parsed word gives the
/// same phones back — the rendering inserts exactly the separators needed to
/// preserve the segmentation.  The law asks for a sane inventory (entries and
/// separator share no characters and hold no boundary or whitespace
/// characters), an input inside the tokenizer's contract, and — as in the
/// polygraph-free case — that the first parse puts no two boundary tokens
/// side by side and that no suffix of the re-rendered text starts with the
/// separator by accident.
#[verifier::rlimit(100)]
pub proof fn lemma_round_trip_polygraphs(input: Seq<char>, graphs: Seq<Seq<char>>, sep: Seq<char>)
    requires
        !no_polygraphs_spec(sort_graphs(graphs)),
        graphs_sep_ok(graphs, sep),
        word_parse_ok(input, graphs, sep),
        word_phones(input, graphs, sep) == seq![boundary(), boundary()] || no_adjacent_boundaries(
            word_phones(input, graphs, sep),
        ),
        forall|i: int|
            0 <= i <= word_phones(input, graphs, sep).len() ==> !is_prefix(
                render_hash(
                    #[trigger] word_phones(input, graphs, sep).skip(i),
                    sort_graphs(graphs),
                    sep,
                ),
                sep,
            ),
    ensures
        word_phones(
            render_spec(word_phones(input, graphs, sep), sort_graphs(graphs), sep),
            graphs,
            sep,
        ) == word_phones(input, graphs, sep),
        render_spec(
            word_phones(
                render_spec(word_phones(input, graphs, sep), sort_graphs(graphs), sep),
                graphs,
                sep,
            ),
            sort_graphs(graphs),
            sep,
        ) == render_spec(word_phones(input, graphs, sep), sort_graphs(graphs), sep),
{
    let sorted = sort_graphs(graphs);
    lemma_sort_graphs_sorted(graphs);
    assert(graphs_sep_ok(sorted, sep)) by {
        assert forall|i: int, k: int|
            0 <= i < sorted.len() && 0 <= k < sorted[i].len() implies !is_ws_char(
            #[trigger] sorted[i][k],
        ) && sorted[i][k] != '#' && !sep.contains(sorted[i][k]) by {
            assert(sorted.contains(sorted[i]));
            assert(graphs.contains(sorted[i]));
            let j = choose|j: int| 0 <= j < graphs.len() && graphs[j] == sorted[i];
            assert(!is_ws_char(graphs[j][k]));
        }
        assert forall|i: int| 0 <= i < sorted.len() implies (#[trigger] sorted[i]).len() >= 1 by {
            assert(sorted.contains(sorted[i]));
            assert(graphs.contains(sorted[i]));
            let j = choose|j: int| 0 <= j < graphs.len() && graphs[j] == sorted[i];
            assert(graphs[j].len() >= 1);
        }
    }
    let norm1 = normalize(input);
    let core = norm_core(input, false, false);
    let p1 = word_phones(input, graphs, sep);
    assert(p1 == tokenize(norm1, sorted, sep));
    assert(tokenize_ok(norm1, sorted, sep));

    // the normalized input holds only boundary and word characters
    lemma_norm_core_no_ws(input, false, false);
    assert(forall|j: int| 0 <= j < norm1.len() ==> (#[trigger] norm1[j] == '#' || !is_ws_char(
        norm1[j],
    ))) by {
        assert(forall|j: int|
            0 < j < norm1.len() - 1 ==> #[trigger] norm1[j] == core[j - 1]);
        assert(norm1[0] == '#');
        assert(norm1[norm1.len() - 1] == '#');
    }
    lemma_tokenize_canonical(norm1, sorted, sep);

    // the first and last phones are boundaries
    assert(norm1.len() >= 2);
    assert(norm1.last() == '#') by {
        assert(norm1[norm1.len() - 1] == '#');
    }
    lemma_tokenize_last_boundary(norm1, sorted, sep);
    let n = p1.len();
    assert(n >= 1);
    assert(p1.last() == boundary());
    assert(p1[0] == boundary() && n >= 2) by {
        assert(!is_prefix(norm1, sep)) by {
            if is_prefix(norm1, sep) {
                assert(sep[0] == norm1.take(sep.len() as int)[0]);
                assert(sep[0] == '#');
            }
        }
        assert(strip_sep(norm1, sep) == norm1);
        lemma_no_graph_at(norm1, sorted, sep);
        assert(p1 == seq![norm1.take(1)] + tokenize(norm1.skip(1), sorted, sep));
        assert(norm1.take(1) =~= boundary());
        let s1 = norm1.skip(1);
        assert(s1.len() > 0);
        assert(s1[s1.len() - 1] == norm1[norm1.len() - 1]);
        assert(tokenize_ok(s1, sorted, sep));
        lemma_tokenize_last_boundary(s1, sorted, sep);
    }

    let rt = render_tokens(p1, sorted, sep);
    let r1 = render_spec(p1, sorted, sep);

    if p1 =~= seq![boundary(), boundary()] {
        // the degenerate word: everything trims away and comes back
        assert(p1.drop_first() =~= seq![boundary()]);
        assert(seq![boundary()].drop_first() =~= Seq::<Seq<char>>::empty());
        assert(render_tokens(Seq::<Seq<char>>::empty(), sorted, sep)
            =~= Seq::<char>::empty());
        assert(render_tokens(seq![boundary()], sorted, sep) =~= seq![' ']) by {
            assert(seq![boundary()][0] == boundary());
            assert(render_tokens(seq![boundary()], sorted, sep) == seq![' '] + render_tokens(
                seq![boundary()].drop_first(),
                sorted,
                sep,
            ));
        }
        assert(rt =~= seq![' ', ' ']) by {
            assert(p1[0] == boundary());
            assert(rt == seq![' '] + render_tokens(p1.drop_first(), sorted, sep));
        }
        assert(rt.len() == 2 && rt[0] == ' ' && rt[1] == ' ') by {
            assert(is_ws_char(' '));
        }
        lemma_trim_start_at(rt, 2);
        assert(rt.skip(2) =~= Seq::<char>::empty());
        assert(trim_end(Seq::<char>::empty()) =~= Seq::<char>::empty());
        assert(r1 =~= Seq::<char>::empty());
        assert(norm_core(r1, false, false) =~= Seq::<char>::empty());
        let norm2 = normalize(r1);
        assert(norm2 =~= seq!['#', '#']);
        assert(!is_prefix(norm2, sep)) by {
            if is_prefix(norm2, sep) {
                assert(sep[0] == norm2.take(sep.len() as int)[0]);
            }
        }
        assert(strip_sep(norm2, sep) == norm2);
        lemma_no_graph_at(norm2, sorted, sep);
        assert(norm2.take(1) =~= boundary());
        let norm3 = norm2.skip(1);
        assert(norm3 =~= seq!['#']);
        assert(!is_prefix(norm3, sep)) by {
            if is_prefix(norm3, sep) {
                assert(sep[0] == norm3.take(sep.len() as int)[0]);
            }
        }
        assert(strip_sep(norm3, sep) == norm3);
        lemma_no_graph_at(norm3, sorted, sep);
        assert(norm3.take(1) =~= boundary());
        assert(norm3.skip(1) =~= Seq::<char>::empty());
        assert(tokenize(norm3.skip(1), sorted, sep) =~= Seq::<Seq<char>>::empty());
        assert(tokenize(norm3, sorted, sep) == seq![norm3.take(1)] + tokenize(
            norm3.skip(1),
            sorted,
            sep,
        ));
        assert(tokenize(norm3, sorted, sep) =~= seq![boundary()]);
        assert(tokenize(norm2, sorted, sep) == seq![norm2.take(1)] + tokenize(
            norm2.skip(1),
            sorted,
            sep,
        ));
        assert(norm2.take(1) =~= boundary());
        assert(tokenize(norm2, sorted, sep) =~= p1);
        assert(word_phones(r1, graphs, sep) == p1);
    } else {
        assert(no_adjacent_boundaries(p1));
        assert(n >= 3) by {
            if n == 2 {
                assert(p1 =~= seq![boundary(), boundary()]);
            }
        }
        let inner = p1.subrange(1, n - 1);
        assert(p1 =~= seq![boundary()] + inner + seq![boundary()]);
        assert(inner.len() == n - 2 >= 1);
        assert(forall|i: int| 0 <= i < inner.len() ==> #[trigger] inner[i] == p1[i + 1]);
        assert(inner[0] != boundary());
        assert(inner.last() != boundary());
        assert(forall|i: int|
            0 <= i < inner.len() ==> canonical_phone(#[trigger] inner[i], sorted));
        assert(no_adjacent_boundaries(inner));

        // rendering and trimming leave exactly the inner phones' text
        lemma_render_structure(p1, sorted, sep);
        lemma_render_structure(inner, sorted, sep);
        let r_in = render_tokens(inner, sorted, sep);
        assert(rt =~= seq![' '] + (r_in + (seq![' '] + Seq::<char>::empty()))) by {
            lemma_render_tokens_concat(inner, seq![boundary()], sorted, sep);
            assert((inner + seq![boundary()]).drop_first() =~= inner.drop_first() + seq![
                boundary(),
            ]);
            assert(p1.drop_first() =~= inner + seq![boundary()]);
            assert(seq![boundary()].drop_first() =~= Seq::<Seq<char>>::empty());
            assert(render_tokens(Seq::<Seq<char>>::empty(), sorted, sep)
                =~= Seq::<char>::empty());
            assert(render_tokens(seq![boundary()], sorted, sep) =~= seq![' ']
                + Seq::<char>::empty()) by {
                assert(seq![boundary()][0] == boundary());
                assert(render_tokens(seq![boundary()], sorted, sep) == seq![' ']
                    + render_tokens(seq![boundary()].drop_first(), sorted, sep));
            }
        }
        let m = rt.len();
        assert(r_in.len() >= 1);
        assert(m == r_in.len() + 2);
        assert(rt[0] == ' ');
        assert(forall|k: int| 0 <= k < r_in.len() ==> #[trigger] rt[k + 1] == r_in[k]);
        assert(rt[m - 1] == ' ');
        assert(!is_ws_char(rt[1])) by {
            assert(rt[1] == r_in[0]);
        }
        lemma_trim_start_at(rt, 1);
        let st = rt.skip(1);
        assert(st.len() == m - 1);
        assert(forall|k: int| 0 <= k < st.len() ==> #[trigger] st[k] == rt[k + 1]);
        assert(is_ws_char(st[st.len() - 1])) by {
            assert(st[st.len() - 1] == rt[m - 1]);
            assert(is_ws_char(' '));
        }
        assert(!is_ws_char(st[st.len() - 2])) by {
            assert(st[st.len() - 2] == r_in[r_in.len() - 1]);
            assert(!is_ws_char(r_in.last()));
        }
        lemma_trim_end_at(st, st.len() - 1);
        assert(r1 == st.take(st.len() - 1));
        assert(r1 =~= r_in);

        // the second normalization writes each interior space back as `#`
        assert forall|k: int| 0 <= k < r_in.len() implies (is_ws_char(#[trigger] r_in[k])
            ==> r_in[k] == ' ') by {}
        assert(r_in[0] != ' ') by {
            if r_in[0] == ' ' {
                assert(is_ws_char(' '));
            }
        }
        assert(r_in.last() != ' ') by {
            if r_in.last() == ' ' {
                assert(is_ws_char(' '));
            }
        }
        lemma_norm_core_simple(r_in, false, false);
        let norm2 = normalize(r1);
        assert(norm2 == seq!['#'] + space_to_boundary(r_in) + seq!['#']);
        assert(space_to_boundary(r_in) == render_hash(inner, sorted, sep));

        // and the `#`-written rendering of the whole word is exactly that
        assert(space_to_boundary(rt) == render_hash(p1, sorted, sep));
        assert(norm2 =~= render_hash(p1, sorted, sep)) by {
            assert(space_to_boundary(rt).len() == rt.len());
            assert forall|k: int| 0 <= k < rt.len() implies #[trigger] space_to_boundary(rt)[k]
                == norm2[k] by {
                if k == 0 {
                    assert(rt[0] == ' ');
                } else if k == m - 1 {
                    assert(rt[m - 1] == ' ');
                } else {
                    assert(norm2[k] == space_to_boundary(r_in)[k - 1]);
                    assert(rt[k] == r_in[k - 1]);
                }
            }
            assert(norm2.len() == rt.len());
        }

        // re-tokenizing gives the phones back
        lemma_retokenize(p1, sorted, sep);
        assert(word_phones(r1, graphs, sep) == tokenize(norm2, sorted, sep));
        assert(tokenize(norm2, sorted, sep) == p1);
    }
}

/// Round-trip law for inventories without polygraphs (no entry overlaps
/// another as a prefix): parsing the rendered form of a parsed word gives the
/// same phones back, so one rendering pass normalizes a word for good.  The
/// law asks that the separator is not the boundary character itself, and that
/// the first parse puts no two boundary tokens side by side (an input such as
/// a word made only of separator characters produces such a pair and is
/// normalized away by the first pass).
pub proof fn lemma_round_trip(input: Seq<char>, graphs: Seq<Seq<char>>, sep: Seq<char>)
    requires
        no_polygraphs_spec(graphs),
        sep != seq!['#'],
        word_phones(input, graphs, sep) == seq![boundary(), boundary()] || forall|i: int|
            0 <= i < word_phones(input, graphs, sep).len() - 1 ==> !(
            #[trigger] word_phones(input, graphs, sep)[i] == boundary() && word_phones(
                input,
                graphs,
                sep,
            )[i + 1] == boundary()),
    ensures
        word_phones(
            render_spec(word_phones(input, graphs, sep), sort_graphs(graphs), sep),
            graphs,
            sep,
        ) == word_phones(input, graphs, sep),
        render_spec(
            word_phones(
                render_spec(word_phones(input, graphs, sep), sort_graphs(graphs), sep),
                graphs,
                sep,
            ),
            sort_graphs(graphs),
            sep,
        ) == render_spec(word_phones(input, graphs, sep), sort_graphs(graphs), sep),
{
    lemma_sort_no_poly(graphs);
    let sorted = sort_graphs(graphs);
    let norm1 = normalize(input);
    let p1 = word_phones(input, graphs, sep);
    assert(p1 == char_tokens(norm1, sep));

    // the separator is not the single character `#`
    assert(!(sep.len() == 1 && sep[0] == '#')) by {
        if sep.len() == 1 && sep[0] == '#' {
            assert(sep =~= seq!['#']);
        }
    }

    // decompose the first parse around the boundary markers
    let core = norm_core(input, false, false);
    lemma_char_tokens_concat(seq!['#'] + core, seq!['#'], sep);
    lemma_char_tokens_concat(seq!['#'], core, sep);
    assert(char_tokens(seq!['#'], sep) =~= seq![boundary()]) by {
        assert(seq!['#'].drop_first() =~= Seq::<char>::empty());
        assert(char_tokens(seq!['#'], sep) == seq![seq!['#']] + char_tokens(
            Seq::<char>::empty(),
            sep,
        ));
    }
    let inner = char_tokens(core, sep);
    assert(p1 =~= seq![boundary()] + inner + seq![boundary()]);
    let n = p1.len();
    assert(n >= 2);
    assert(p1[0] == boundary());
    assert(p1[n - 1] == boundary());

    // every phone is one character, none is the separator character, and the
    // phones taken from the core are not whitespace
    lemma_char_tokens_shape(norm1, sep);
    lemma_char_tokens_shape(core, sep);
    lemma_norm_core_no_ws(input, false, false);
    assert(forall|i: int| 0 <= i < n ==> (#[trigger] p1[i]).len() == 1);
    assert(forall|i: int| 0 <= i < n ==> !(sep.len() == 1 && #[trigger] p1[i][0] == sep[0]));
    assert forall|i: int| 0 < i < n - 1 implies !is_ws_char(#[trigger] p1[i][0]) by {
        assert(p1[i] == inner[i - 1]);
        let j = choose|j: int| 0 <= j < core.len() && inner[i - 1] == seq![core[j]];
        assert(!is_ws_char(core[j]));
    }

    // rendering writes one character per phone
    lemma_render_fast(p1, sorted, sep);
    let rt = render_tokens(p1, sorted, sep);
    assert(rt.len() == n);
    assert(rt[0] == ' ');
    assert(rt[n - 1] == ' ');
    let r1 = render_spec(p1, sorted, sep);

    if p1 =~= seq![boundary(), boundary()] {
        // the degenerate word: everything trims away and comes back
        assert(n == 2);
        lemma_trim_start_at(rt, 2);
        assert(rt.skip(2) =~= Seq::<char>::empty());
        assert(trim_end(Seq::<char>::empty()) =~= Seq::<char>::empty());
        assert(r1 =~= Seq::<char>::empty());
        assert(norm_core(r1, false, false) =~= Seq::<char>::empty());
        assert(normalize(r1) =~= seq!['#'] + seq!['#']);
        lemma_char_tokens_concat(seq!['#'], seq!['#'], sep);
        assert(char_tokens(seq!['#'], sep) =~= seq![boundary()]) by {
            assert(seq!['#'].drop_first() =~= Seq::<char>::empty());
        }
        assert(word_phones(r1, graphs, sep) =~= p1);
    } else {
        assert(forall|i: int|
            0 <= i < n - 1 ==> !(#[trigger] p1[i] == boundary() && p1[i + 1] == boundary()));
        // a boundary token is exactly the one-character phone `#`
        assert forall|i: int| 0 <= i < n implies ((#[trigger] p1[i] == boundary()) <==> p1[i][0]
            == '#') by {
            if p1[i][0] == '#' {
                assert(p1[i] =~= boundary());
            }
        }
        assert(n >= 3) by {
            if n == 2 {
                assert(p1 =~= seq![boundary(), boundary()]);
            }
        }
        assert(p1[1] != boundary());
        assert(p1[n - 2] != boundary());

        // trimming removes exactly the outer spaces
        assert(!is_ws_char(rt[1]));
        lemma_trim_start_at(rt, 1);
        let st = rt.skip(1);
        assert(st.len() == n - 1);
        assert(forall|k: int| 0 <= k < st.len() ==> #[trigger] st[k] == rt[k + 1]);
        assert(is_ws_char(st[n - 2]));
        assert(!is_ws_char(st[n - 3]));
        lemma_trim_end_at(st, n - 2);
        let mid = st.take(n - 2);
        assert(r1 == mid);
        assert(mid.len() == n - 2);
        assert(forall|k: int| 0 <= k < mid.len() ==> #[trigger] mid[k] == rt[k + 1]);

        // the trimmed text is normal: single interior spaces only
        assert forall|k: int| 0 <= k < mid.len() implies (is_ws_char(#[trigger] mid[k]) ==> mid[k]
            == ' ') by {
            if p1[k + 1] == boundary() {
                assert(mid[k] == ' ');
            } else {
                assert(mid[k] == p1[k + 1][0]);
                assert(!is_ws_char(mid[k]));
            }
        }
        assert forall|k: int| 0 <= k < mid.len() - 1 implies !(#[trigger] mid[k] == ' ' && mid[k
            + 1] == ' ') by {
            if mid[k] == ' ' && mid[k + 1] == ' ' {
                assert(p1[k + 1] == boundary() || !is_ws_char(mid[k]));
                assert(p1[k + 2] == boundary() || !is_ws_char(mid[k + 1]));
            }
        }
        assert(mid[0] != ' ') by {
            assert(mid[0] == p1[1][0]);
            assert(!is_ws_char(mid[0]));
        }
        assert(mid.last() != ' ') by {
            assert(mid.last() == p1[n - 2][0]);
            assert(!is_ws_char(mid.last()));
        }

        // the second normalization turns each interior space back into `#`
        lemma_norm_core_simple(mid, false, false);
        let sub = space_to_boundary(mid);
        assert(normalize(r1) == seq!['#'] + sub + seq!['#']);

        // the second parse splits back into the same phones
        lemma_char_tokens_concat(seq!['#'] + sub, seq!['#'], sep);
        lemma_char_tokens_concat(seq!['#'], sub, sep);
        assert(char_tokens(seq!['#'], sep) =~= seq![boundary()]) by {
            assert(seq!['#'].drop_first() =~= Seq::<char>::empty());
        }
        assert forall|k: int| 0 <= k < sub.len() implies !(sep.len() == 1 && #[trigger] sub[k]
            == sep[0]) by {
            if mid[k] == ' ' {
                assert(sub[k] == '#');
            } else {
                assert(sub[k] == mid[k]);
                if p1[k + 1] == boundary() {
                    assert(mid[k] == ' ');
                } else {
                    assert(mid[k] == p1[k + 1][0]);
                }
            }
        }
        lemma_char_tokens_nodrop(sub, sep);
        assert(char_tokens(sub, sep) =~= inner) by {
            assert(char_tokens(sub, sep).len() == inner.len());
            assert forall|k: int| 0 <= k < inner.len() implies #[trigger] char_tokens(
                sub,
                sep,
            )[k] == inner[k] by {
                assert(char_tokens(sub, sep)[k] == seq![sub[k]]);
                assert(inner[k] == p1[k + 1]);
                if p1[k + 1] == boundary() {
                    assert(mid[k] == ' ');
                    assert(sub[k] == '#');
                    assert(seq![sub[k]] =~= boundary());
                } else {
                    assert(mid[k] == p1[k + 1][0]);
                    assert(mid[k] != ' ') by {
                        assert(!is_ws_char(p1[k + 1][0]));
                    }
                    assert(sub[k] == p1[k + 1][0]);
                    assert(seq![sub[k]] =~= p1[k + 1]);
                }
            }
        }
        assert(word_phones(r1, graphs, sep) =~= p1);
    }
}

// ---------------------------------------------------------------------------
// The matching engine
// ---------------------------------------------------------------------------

/// A match of one pattern element that consumed a token range spanning zero
/// or more tokens, carrying the nested matches of its sub-elements.
#[derive(Debug, PartialEq)]
pub struct MultipleMatch {
    /// The range of the match in the word.
    pub range: Range<usize>,
    /// The outer element that was matched.
    pub element: PatternElement,
    /// The inner matches.
    pub matches: Vec<Match>,
}

/// A match of one pattern element that consumed exactly one token range.
#[derive(Debug, PartialEq)]
pub struct SingleMatch {
    /// The range of the match in the word.
    pub range: Range<usize>,
    /// The element that was matched.
    pub element: PatternElement,
}

/// One entry of a match trace: a single element, or multiple elements (for
/// optional sequences, or wildcards).
#[derive(Debug, PartialEq)]
pub enum Match {
    Multiple(MultipleMatch),
    Single(SingleMatch),
}

/// The view of a `Match`.
pub enum SpecMatch {
    Multiple { start: int, end: int, element: SpecPatternElement, matches: Seq<SpecMatch> },
    Single { start: int, end: int, element: SpecPatternElement },
}

/// The view of one match.
pub open spec fn match_view(m: Match) -> SpecMatch
    decreases m,
{
    match m {
        Match::Single(sm) => SpecMatch::Single {
            start: sm.range.start as int,
            end: sm.range.end as int,
            element: pattern_element_view(sm.element),
        },
        Match::Multiple(mm) => SpecMatch::Multiple {
            start: mm.range.start as int,
            end: mm.range.end as int,
            element: pattern_element_view(mm.element),
            matches: matches_view(mm.matches@),
        },
    }
}

/// The view of a sequence of matches.
pub open spec fn matches_view(s: Seq<Match>) -> Seq<SpecMatch>
    decreases s,
{
    if s.len() == 0 {
        Seq::empty()
    } else {
        seq![match_view(s[0])] + matches_view(s.subrange(1, s.len() as int))
    }
}

impl DeepView for Match {
    type V = SpecMatch;

    open spec fn deep_view(&self) -> SpecMatch {
        match_view(*self)
    }
}

/// A pattern element the matching engine implements.
pub open spec fn supported_element(e: SpecPatternElement) -> bool {
    e is Text || e is Ditto
}

/// A pattern made only of elements the matching engine implements.
pub open spec fn supported_pattern(es: Seq<SpecPatternElement>) -> bool {
    forall|i: int| 0 <= i < es.len() ==> supported_element(#[trigger] es[i])
}

/// The expansion of one pattern element before matching: literal text is
/// re-tokenized into one element per phone, everything else is unchanged.
pub open spec fn expand_element(
    e: SpecPatternElement,
    graphs: Seq<Seq<char>>,
    sep: Seq<char>,
) -> Seq<SpecPatternElement> {
    match e {
        SpecPatternElement::Text(t) => tokenize(t, graphs, sep).map_values(
            |p: Seq<char>| SpecPatternElement::Text(p),
        ),
        _ => seq![e],
    }
}

/// The expansion of a whole pattern before matching.
pub open spec fn flatten_elements(
    es: Seq<SpecPatternElement>,
    graphs: Seq<Seq<char>>,
    sep: Seq<char>,
) -> Seq<SpecPatternElement>
    decreases es.len(),
{
    if es.len() == 0 {
        Seq::empty()
    } else {
        expand_element(es[0], graphs, sep) + flatten_elements(
            es.subrange(1, es.len() as int),
            graphs,
            sep,
        )
    }
}

/// Appending an element extends the expansion by that element's expansion.
proof fn lemma_flatten_push(
    es: Seq<SpecPatternElement>,
    e: SpecPatternElement,
    graphs: Seq<Seq<char>>,
    sep: Seq<char>,
)
    ensures
        flatten_elements(es.push(e), graphs, sep) == flatten_elements(es, graphs, sep)
            + expand_element(e, graphs, sep),
    decreases es.len(),
{
    if es.len() == 0 {
        let t = es.push(e);
        assert(t.len() == 1);
        assert(t[0] == e);
        assert(t.subrange(1, t.len() as int) =~= Seq::<SpecPatternElement>::empty());
        assert(flatten_elements(t, graphs, sep) == expand_element(t[0], graphs, sep)
            + flatten_elements(t.subrange(1, t.len() as int), graphs, sep));
        assert(flatten_elements(Seq::<SpecPatternElement>::empty(), graphs, sep)
            =~= Seq::<SpecPatternElement>::empty());
        assert(flatten_elements(es, graphs, sep) =~= Seq::<SpecPatternElement>::empty());
        assert(flatten_elements(es.push(e), graphs, sep) =~= flatten_elements(es, graphs, sep)
            + expand_element(e, graphs, sep));
    } else {
        let t = es.push(e);
        assert(t[0] == es[0]);
        assert(t.subrange(1, t.len() as int) =~= es.subrange(1, es.len() as int).push(e));
        lemma_flatten_push(es.subrange(1, es.len() as int), e, graphs, sep);
        assert(flatten_elements(es.push(e), graphs, sep) =~= flatten_elements(es, graphs, sep)
            + expand_element(e, graphs, sep));
    }
}

/// Matching an expanded pattern against the phones, element by element, from
/// element `k` on: literal text must equal the token at its position, and a
/// ditto must equal the token immediately before its position and cannot
/// stand first.  Each consumes exactly one token; elements the engine does
/// not implement never match.
pub open spec fn spec_match_from(
    phones: Seq<Seq<char>>,
    els: Seq<SpecPatternElement>,
    start: int,
    k: int,
) -> Option<Seq<SpecMatch>>
    decreases els.len() - k,
{
    if !(0 <= k < els.len()) {
        Some(Seq::empty())
    } else {
        let idx = start + k;
        match els[k] {
            SpecPatternElement::Text(t) => {
                if 0 <= idx < phones.len() && phones[idx] == t {
                    match spec_match_from(phones, els, start, k + 1) {
                        Some(rest) => Some(
                            seq![
                                SpecMatch::Single {
                                    start: idx,
                                    end: idx + 1,
                                    element: SpecPatternElement::Text(t),
                                },
                            ] + rest,
                        ),
                        None => None,
                    }
                } else {
                    None
                }
            },
            SpecPatternElement::Ditto => {
                if k >= 1 && 0 <= idx < phones.len() && phones[idx] == phones[idx - 1] {
                    match spec_match_from(phones, els, start, k + 1) {
                        Some(rest) => Some(
                            seq![
                                SpecMatch::Single {
                                    start: idx,
                                    end: idx + 1,
                                    element: SpecPatternElement::Ditto,
                                },
                            ] + rest,
                        ),
                        None => None,
                    }
                } else {
                    None
                }
            },
            _ => None,
        }
    }
}

/// The whole match of a pattern against a word's phones at `start`: the
/// pattern is expanded first, then matched element by element.
pub open spec fn spec_match_one(
    phones: Seq<Seq<char>>,
    graphs: Seq<Seq<char>>,
    sep: Seq<char>,
    els: Seq<SpecPatternElement>,
    start: int,
) -> Option<Seq<SpecMatch>> {
    spec_match_from(phones, flatten_elements(els, graphs, sep), start, 0)
}

impl Word {
    /// Matches a pattern against the phones of the word, starting from the
    /// given index.  Literal text elements are re-tokenized with the word's
    /// own inventory first.  Returns the match trace, or `None` as soon as
    /// any element cannot be satisfied.
    pub fn match_one(&self, pattern: &Pattern, start_index: usize) -> (r: Option<Vec<Match>>)
        requires
            supported_pattern(pattern.deep_view().elements),
            forall|i: int|
                0 <= i < pattern.deep_view().elements.len()
                    ==> (#[trigger] pattern.deep_view().elements[i] matches
                    SpecPatternElement::Text(t) ==> tokenize_ok(
                    t,
                    self.graphs.deep_view(),
                    self.separator@,
                )),
        ensures
            match r {
                Some(v) => spec_match_one(
                    self.phones.deep_view(),
                    self.graphs.deep_view(),
                    self.separator@,
                    pattern.deep_view().elements,
                    start_index as int,
                ) == Some(v.deep_view()),
                None => spec_match_one(
                    self.phones.deep_view(),
                    self.graphs.deep_view(),
                    self.separator@,
                    pattern.deep_view().elements,
                    start_index as int,
                ) is None,
            },
    {
        let ghost els_v = pattern.deep_view().elements;
        let ghost gv = self.graphs.deep_view();
        let ghost sepv = self.separator@;
        let ghost flat_v = flatten_elements(els_v, gv, sepv);
        proof {
            lemma_pattern_elements_view_len(pattern.elements@);
        }

        // expand literal text into one element per phone
        let mut flat: Vec<PatternElement> = Vec::new();
        let mut i: usize = 0;
        assert(pattern_elements_view(flat@) =~= flatten_elements(els_v.take(0), gv, sepv)) by {
            assert(els_v.take(0) =~= Seq::<SpecPatternElement>::empty());
            assert(pattern_elements_view(flat@) =~= Seq::<SpecPatternElement>::empty());
        }
        while i < pattern.elements.len()
            invariant
                0 <= i <= pattern.elements.len(),
                els_v == pattern.deep_view().elements,
                gv == self.graphs.deep_view(),
                sepv == self.separator@,
                els_v.len() == pattern.elements.len(),
                supported_pattern(els_v),
                forall|j: int|
                    0 <= j < els_v.len() ==> (#[trigger] els_v[j] matches SpecPatternElement::Text(
                        t,
                    ) ==> tokenize_ok(t, gv, sepv)),
                pattern_elements_view(flat@) == flatten_elements(els_v.take(i as int), gv, sepv),
                forall|j: int|
                    0 <= j < flat@.len() ==> (flat@[j] is Text || flat@[j] is Ditto),
            decreases pattern.elements.len() - i,
        {
            proof {
                lemma_pattern_elements_view_index(pattern.elements@, i as int);
                assert(els_v[i as int] == pattern_element_view(pattern.elements@[i as int]));
                assert(supported_element(els_v[i as int]));
            }
            let ghost before = pattern_elements_view(flat@);
            match &pattern.elements[i] {
                PatternElement::Text(t) => {
                    let ghost tv = t@;
                    assert(els_v[i as int] == SpecPatternElement::Text(tv));
                    assert(tokenize_ok(tv, gv, sepv));
                    let phones_t = into_phones(t.clone(), &self.graphs, &self.separator);
                    let ghost expd = expand_element(els_v[i as int], gv, sepv);
                    let mut j: usize = 0;
                    assert(before + expd.take(0) =~= before);
                    while j < phones_t.len()
                        invariant
                            0 <= j <= phones_t.len(),
                            phones_t.deep_view() == tokenize(tv, gv, sepv),
                            phones_t.deep_view().len() == phones_t.len(),
                            expd == expand_element(SpecPatternElement::Text(tv), gv, sepv),
                            expd == tokenize(tv, gv, sepv).map_values(
                                |p: Seq<char>| SpecPatternElement::Text(p),
                            ),
                            pattern_elements_view(flat@) == before + expd.take(j as int),
                            forall|m: int|
                                0 <= m < flat@.len() ==> (flat@[m] is Text || flat@[m] is Ditto),
                        decreases phones_t.len() - j,
                    {
                        let ghost fprev = flat@;
                        let el = PatternElement::Text(phones_t[j].clone());
                        assert(pattern_element_view(el) == expd[j as int]) by {
                            assert(phones_t[j as int]@ == phones_t.deep_view()[j as int]);
                        }
                        flat.push(el);
                        proof {
                            lemma_pattern_elements_view_push(fprev, el);
                            assert(expd.take(j + 1) =~= expd.take(j as int).push(expd[j as int]));
                            assert(pattern_elements_view(flat@) =~= before + expd.take(j + 1));
                        }
                        j += 1;
                    }
                    assert(expd.take(phones_t.len() as int) =~= expd);
                },
                PatternElement::Ditto => {
                    let ghost fprev = flat@;
                    let el = PatternElement::Ditto;
                    flat.push(el);
                    proof {
                        lemma_pattern_elements_view_push(fprev, el);
                        assert(expand_element(els_v[i as int], gv, sepv) =~= seq![
                            SpecPatternElement::Ditto,
                        ]);
                        assert(pattern_elements_view(flat@) =~= before + expand_element(
                            els_v[i as int],
                            gv,
                            sepv,
                        ));
                    }
                },
                _ => {
                    proof {
                        assert(false);
                    }
                },
            }
            proof {
                lemma_flatten_push(els_v.take(i as int), els_v[i as int], gv, sepv);
                assert(els_v.take(i + 1) =~= els_v.take(i as int).push(els_v[i as int]));
            }
            i += 1;
        }
        assert(els_v.take(els_v.len() as int) =~= els_v);
        assert(pattern_elements_view(flat@) == flat_v);
        proof {
            lemma_pattern_elements_view_len(flat@);
        }

        // match element by element
        let ghost pv = self.phones.deep_view();
        let mut out: Vec<Match> = Vec::new();
        let mut k: usize = 0;
        assert(out.deep_view() =~= Seq::<SpecMatch>::empty());
        while k < flat.len()
            invariant
                0 <= k <= flat.len(),
                pv == self.phones.deep_view(),
                pv.len() == self.phones.len(),
                els_v == pattern.deep_view().elements,
                gv == self.graphs.deep_view(),
                sepv == self.separator@,
                flat_v == flatten_elements(els_v, gv, sepv),
                flat_v == pattern_elements_view(flat@),
                flat_v.len() == flat@.len(),
                forall|j: int| 0 <= j < flat@.len() ==> (flat@[j] is Text || flat@[j] is Ditto),
                out.deep_view().len() == k,
                match spec_match_from(pv, flat_v, start_index as int, k as int) {
                    Some(rest) => spec_match_from(pv, flat_v, start_index as int, 0) == Some(
                        out.deep_view() + rest,
                    ),
                    None => spec_match_from(pv, flat_v, start_index as int, 0) is None,
                },
            decreases flat.len() - k,
        {
            proof {
                lemma_pattern_elements_view_index(flat@, k as int);
            }
            let ghost oprev = out.deep_view();
            let ghost idx_v = start_index + k as int;
            if start_index >= self.phones.len() || k >= self.phones.len() - start_index {
                assert(idx_v >= pv.len());
                assert(spec_match_from(pv, flat_v, start_index as int, k as int) is None);
                return None;
            }
            let idx = start_index + k;
            match &flat[k] {
                PatternElement::Text(t) => {
                    assert(flat_v[k as int] == SpecPatternElement::Text(t@));
                    let phone = &self.phones[idx];
                    assert(phone@ == pv[idx as int]);
                    if phone.eq(t) {
                        let el = PatternElement::Text(t.clone());
                        out.push(
                            Match::Single(SingleMatch { range: idx..(idx + 1), element: el }),
                        );
                        proof {
                            let m = SpecMatch::Single {
                                start: idx as int,
                                end: idx + 1,
                                element: SpecPatternElement::Text(t@),
                            };
                            assert(out.deep_view() =~= oprev.push(m));
                            match spec_match_from(pv, flat_v, start_index as int, k + 1) {
                                Some(rest) => {
                                    assert(spec_match_from(pv, flat_v, start_index as int, k as int)
                                        == Some(seq![m] + rest));
                                    assert(oprev + (seq![m] + rest) =~= out.deep_view() + rest);
                                },
                                None => {},
                            }
                        }
                    } else {
                        assert(spec_match_from(pv, flat_v, start_index as int, k as int) is None);
                        return None;
                    }
                },
                PatternElement::Ditto => {
                    assert(flat_v[k as int] == SpecPatternElement::Ditto);
                    if k == 0 {
                        assert(spec_match_from(pv, flat_v, start_index as int, k as int) is None);
                        return None;
                    }
                    let phone = &self.phones[idx];
                    let before = &self.phones[idx - 1];
                    assert(phone@ == pv[idx as int]);
                    assert(before@ == pv[idx - 1]);
                    if phone.eq(before) {
                        out.push(
                            Match::Single(
                                SingleMatch { range: idx..(idx + 1), element: PatternElement::Ditto },
                            ),
                        );
                        proof {
                            let m = SpecMatch::Single {
                                start: idx as int,
                                end: idx + 1,
                                element: SpecPatternElement::Ditto,
                            };
                            assert(out.deep_view() =~= oprev.push(m));
                            match spec_match_from(pv, flat_v, start_index as int, k + 1) {
                                Some(rest) => {
                                    assert(spec_match_from(pv, flat_v, start_index as int, k as int)
                                        == Some(seq![m] + rest));
                                    assert(oprev + (seq![m] + rest) =~= out.deep_view() + rest);
                                },
                                None => {},
                            }
                        }
                    } else {
                        assert(spec_match_from(pv, flat_v, start_index as int, k as int) is None);
                        return None;
                    }
                },
                _ => {
                    proof {
                        assert(flat@[k as int] is Text || flat@[k as int] is Ditto);
                        assert(false);
                    }
                },
            }
            k += 1;
        }
        assert(spec_match_from(pv, flat_v, start_index as int, k as int) == Some(
            Seq::<SpecMatch>::empty(),
        ));
        assert(out.deep_view() + Seq::<SpecMatch>::empty() =~= out.deep_view());
        Some(out)
    }
}

// ---------------------------------------------------------------------------
// Laws of ditto matching
// ---------------------------------------------------------------------------

/// Whether a ditto element at `k` can be satisfied: it must not stand first,
/// its position must hold a token, and that token must equal the one
/// immediately before it.
pub open spec fn ditto_holds(
    phones: Seq<Seq<char>>,
    start: int,
    k: int,
) -> bool {
    k >= 1 && 0 <= start + k < phones.len() && phones[start + k] == phones[start + k - 1]
}

proof fn lemma_match_fails_from(
    phones: Seq<Seq<char>>,
    els: Seq<SpecPatternElement>,
    start: int,
    k: int,
    j: int,
)
    requires
        0 <= j <= k < els.len(),
        (els[k] is Ditto),
        !ditto_holds(phones, start, k),
    ensures
        (spec_match_from(phones, els, start, j) is None),
    decreases k - j,
{
    if j < k {
        lemma_match_fails_from(phones, els, start, k, j + 1);
    }
}

/// A pattern whose expansion holds a ditto at an index where the token
/// differs from the one immediately before it (or where no preceding or
/// current token exists) never matches.
pub proof fn lemma_ditto_mismatch_fails(
    phones: Seq<Seq<char>>,
    els: Seq<SpecPatternElement>,
    start: int,
    k: int,
)
    requires
        0 <= k < els.len(),
        (els[k] is Ditto),
        !ditto_holds(phones, start, k),
    ensures
        (spec_match_from(phones, els, start, 0) is None),
{
    lemma_match_fails_from(phones, els, start, k, 0);
}

proof fn lemma_match_succeeds_from(
    phones: Seq<Seq<char>>,
    els: Seq<SpecPatternElement>,
    start: int,
    k: int,
    j: int,
)
    requires
        0 <= j <= k < els.len(),
        (els[k] is Ditto),
        (spec_match_from(phones, els, start, j) is Some),
    ensures
        ditto_holds(phones, start, k),
        spec_match_from(phones, els, start, j)->Some_0.len() == els.len() - j,
        spec_match_from(phones, els, start, j)->Some_0[k - j] == (SpecMatch::Single {
            start: start + k,
            end: start + k + 1,
            element: SpecPatternElement::Ditto,
        }),
    decreases els.len() - j,
{
    let r = spec_match_from(phones, els, start, j)->Some_0;
    let rest = spec_match_from(phones, els, start, j + 1);
    if j == k {
        assert(rest is Some);
        if j + 1 < els.len() {
            lemma_match_len(phones, els, start, j + 1);
        } else {
            assert(rest->Some_0 =~= Seq::<SpecMatch>::empty());
        }
    } else {
        lemma_match_succeeds_from(phones, els, start, k, j + 1);
        assert(r[k - j] == rest->Some_0[k - j - 1]);
    }
}

/// A successful match yields one entry per expanded element.
pub proof fn lemma_match_len(
    phones: Seq<Seq<char>>,
    els: Seq<SpecPatternElement>,
    start: int,
    j: int,
)
    requires
        0 <= j <= els.len(),
        (spec_match_from(phones, els, start, j) is Some),
    ensures
        spec_match_from(phones, els, start, j)->Some_0.len() == els.len() - j,
    decreases els.len() - j,
{
    if j < els.len() {
        lemma_match_len(phones, els, start, j + 1);
    } else {
        assert(spec_match_from(phones, els, start, j)->Some_0 =~= Seq::<SpecMatch>::empty());
    }
}

/// Ditto matching law: a pattern whose expansion holds a ditto at `k`
/// matches only where the token at its position equals the token immediately
/// before it, it consumes exactly that one token, and a ditto first in the
/// pattern never matches.
pub proof fn lemma_ditto_match_consumes_one(
    phones: Seq<Seq<char>>,
    els: Seq<SpecPatternElement>,
    start: int,
    k: int,
)
    requires
        0 <= k < els.len(),
        (els[k] is Ditto),
        (spec_match_from(phones, els, start, 0) is Some),
    ensures
        ditto_holds(phones, start, k),
        spec_match_from(phones, els, start, 0)->Some_0[k] == (SpecMatch::Single {
            start: start + k,
            end: start + k + 1,
            element: SpecPatternElement::Ditto,
        }),
{
    lemma_match_succeeds_from(phones, els, start, k, 0);
}

} // verus!
