//! A verified parser and renderer for bracket-delimited shortcode markup.
//!
//! Text such as `[video src="a.mp4" loop]` or `[bold]word[/bold]` is split
//! into tokens, folded into a tree that matches each closing tag with its
//! nearest unmatched same-named opener, and rendered by substituting every
//! tag whose name is registered with a handler. Unregistered tags are
//! re-emitted in their bracket syntax, so unknown markup passes through.

use vstd::prelude::*;

pub mod code;
pub mod parser;
pub mod renderer;
pub mod roundtrip;
pub mod shortcode;
pub mod token;

pub use crate::shortcode::{Handler, Shortcode};

use crate::code::{Code, codes_view};
use crate::parser::{Parser, spec_tokenize};
use crate::renderer::{build_codes, build_v};
use crate::token::Token;

verus! {

/// Parses a text into its tree: the token sequence folded so that every
/// closing tag has absorbed the nodes back to its nearest unmatched
/// same-named opening tag.
pub fn parse(content: &str) -> (r: Vec<Code>)
    ensures
        codes_view(r@) == build_v(spec_tokenize(content@)),
{
    let tokens: Vec<Token> = Parser::new(content).parse();
    build_codes(&tokens)
}

} // verus!
