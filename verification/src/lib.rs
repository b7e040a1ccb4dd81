//! A compiler and interpreter for a small sound-change rule language.
//!
//! Words are segmented into phonetic tokens by a longest-match grapheme
//! inventory (`word`), rule source text is parsed into an abstract syntax
//! tree by a recursive-descent grammar (`parse`), and programs are run by
//! folding category edits over an interpreter state (`apply`).

pub mod apply;
pub mod common;
pub mod parse;
pub mod word;

use crate::parse::{spec_ast, AST, Diagnostic};
use vstd::prelude::*;

verus! {

/// Compiles rule source text into a program.  One malformed statement does
/// not abort the rest: the parser recovers at the next line and collects all
/// diagnostics; the program is returned only when there are none.
pub fn parse(source: &str) -> (r: Result<AST, Vec<Diagnostic>>)
    ensures
        match r {
            Ok(ast) => ast.deep_view().elements == spec_ast(source@).0 && spec_ast(
                source@,
            ).1.len() == 0,
            Err(ds) => ds.deep_view() == spec_ast(source@).1 && ds.len() > 0,
        },
{
    let (ast, diags) = crate::parse::ast(source);
    if diags.len() == 0 {
        assert(diags.deep_view() =~= Seq::<crate::parse::SpecDiagnostic>::empty());
        Ok(ast)
    } else {
        Err(diags)
    }
}

} // verus!
