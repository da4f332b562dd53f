//! Cosense to Markdown conversion core.
//!
//! `convert` is a total function from text to text: it terminates and does not
//! panic on any input, and every step of it is stated and proved below.
pub mod ast;
pub mod inline;
pub mod laws;
pub mod parser;
pub mod patterns;
pub mod render_markdown;
pub mod text;

pub use ast::{Block, Document, Emphasis, Inline, ListItem};
pub use inline::IMAGE_EXTENSIONS;
pub use parser::looks_like_cosense;

use vstd::prelude::*;

verus! {

/// The Markdown for a Cosense text.
pub open spec fn convert_spec(text: Seq<char>) -> Seq<char> {
    render_markdown::render_markdown_spec(parser::parse_spec(text))
}

/// Converts Cosense text to Markdown.
pub fn convert(text: &str) -> (r: String)
    ensures
        r@ == convert_spec(text@),
{
    render_markdown::render_markdown(&parser::parse(text))
}

} // verus!
