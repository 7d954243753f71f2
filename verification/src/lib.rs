//! A transpiler from a small brace-delimited markup language to indented HTML.
//!
//! The pipeline has three stages: the [`scanner`] cuts the source text into
//! tokens, the [`parser`] builds a tree of elements from them, and the
//! [`emitter`] prints that tree. Every stage is specified by a function over
//! sequences of characters, and the executable code is proved against it.
//!
//! Two modules hold theorems about the pipeline as a whole: [`layout`] relates
//! the indentation of the output to the nesting of the tree, and [`locality`]
//! shows that an error is never reported after the character that causes it.

use vstd::prelude::*;

pub mod emitter;
pub mod layout;
pub mod locality;
pub mod parser;
pub mod position;
pub mod scanner;
pub mod source;
pub mod text;
pub mod token;

verus! {

/// The HTML text for the source text `input`, or the first error in it.
///
/// The result is the printed form of the elements that the parser finds from
/// the start of the text; the first lexical or syntax error ends the pass.
pub fn transpile(input: &str) -> (res: Result<String, parser::TranspileError>)
    requires
        input@.len() + 3 <= usize::MAX,
    ensures
        match parser::elements_at(input@, 0) {
            parser::Parsed::Done { value, next } => res matches Ok(html) && html@
                == emitter::render_nodes(value, 0),
            parser::Parsed::Failed(failure) => res matches Err(e) && e@ == failure,
        },
{
    let scanner = scanner::Scanner::new(input);
    match parser::Parser::parse(scanner) {
        Err(e) => Err(e),
        Ok(elems) => Ok(emitter::emit_html(elems)),
    }
}

} // verus!
