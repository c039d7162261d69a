use vstd::prelude::*;

use crate::tag::{SpecTag, Tag};

verus! {

/// The ways a parse can fail.  Unknown tag or attribute names are not
/// failures (they resolve to `Unknown`); only structural problems are.
#[derive(Debug, PartialEq, Eq)]
pub enum ParseError {
    /// A `<` was seen but no matching `>` was found before the end of input.
    UnterminatedTag,
    /// An attribute value is not properly quoted: its opening `"` has no
    /// matching closing `"`, or the input ends where the value should start.
    UnterminatedAttributeValue,
    /// An end tag does not match the element currently open on the stack.
    MismatchedEndTag { expected: Tag, found: Tag },
    /// An end tag was seen while no element was open at all.
    UnexpectedEndTag { found: Tag },
    /// The input ended while one or more elements were still open.
    UnclosedElement { tag: Tag },
}

/// The mathematical model of a [`ParseError`].
pub enum SpecParseError {
    UnterminatedTag,
    UnterminatedAttributeValue,
    MismatchedEndTag { expected: SpecTag, found: SpecTag },
    UnexpectedEndTag { found: SpecTag },
    UnclosedElement { tag: SpecTag },
}

impl View for ParseError {
    type V = SpecParseError;

    open spec fn view(&self) -> SpecParseError {
        match self {
            ParseError::UnterminatedTag => SpecParseError::UnterminatedTag,
            ParseError::UnterminatedAttributeValue => SpecParseError::UnterminatedAttributeValue,
            ParseError::MismatchedEndTag { expected, found } => SpecParseError::MismatchedEndTag {
                expected: expected@,
                found: found@,
            },
            ParseError::UnexpectedEndTag { found } => SpecParseError::UnexpectedEndTag {
                found: found@,
            },
            ParseError::UnclosedElement { tag } => SpecParseError::UnclosedElement { tag: tag@ },
        }
    }
}

} // verus!
