//! The token kinds that the engine must know of for this language: which
//! ones are trivia, and which one marks a node that stands where a rule
//! failed.

use vstd::prelude::*;
use crate::rowan_nom::RowanNomLanguage;

verus! {

/// The kind of the nodes built where a rule failed.
pub const ERROR: u16 = 0;

/// The kind of whitespace tokens.
pub const WHITESPACE: u16 = 1;

/// The kind of comment tokens.
pub const COMMENT: u16 = 2;

/// The language of Lustre sources: whitespace and comments are trivia.
pub struct LustreLang;

impl RowanNomLanguage for LustreLang {
    open spec fn spec_is_trivia(kind: u16) -> bool {
        kind == WHITESPACE || kind == COMMENT
    }

    open spec fn spec_error_kind() -> u16 {
        ERROR
    }

    fn is_trivia(kind: u16) -> (r: bool) {
        kind == WHITESPACE || kind == COMMENT
    }

    fn get_error_kind() -> (r: u16) {
        ERROR
    }
}

} // verus!
