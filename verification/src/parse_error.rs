//! Parse errors: the grammar-level error taxonomy, wrapping the lexical
//! one, each variant carrying a message and the source offset at which the
//! parse failed.

use vstd::prelude::*;

use crate::text::dec_seq;
use crate::tokenize_error::{TokenizeError, TokenizeErrorModel};

verus! {

/// Mathematical model of a [`ParseError`].
pub enum ParseErrorModel {
    TokenizeError(TokenizeErrorModel),
    IncorrectUseStatement { message: Seq<char>, offset: int },
    IncorrectObjectDefinition { message: Seq<char>, offset: int },
    IncorrectPropertyDefinition { message: Seq<char>, offset: int },
    IncorrectSyntax { message: Seq<char>, offset: int },
    IncorrectEventDefinition { message: Seq<char>, offset: int },
}

/// An error produced by the parser. Offsets are character indices into the
/// original input, re-based across every recursive re-parse.
#[derive(Debug, Clone, PartialEq, Eq)]
pub enum ParseError {
    /// The text could not even be tokenized.
    TokenizeError(TokenizeError),
    /// A requirement declaration without its two bareword arguments.
    IncorrectUseStatement { message: String, offset: usize },
    /// An object definition without its bracket group.
    IncorrectObjectDefinition { message: String, offset: usize },
    /// A property assignment without a terminated, well-shaped value.
    IncorrectPropertyDefinition { message: String, offset: usize },
    /// A token that no statement can start with.
    IncorrectSyntax { message: String, offset: usize },
    /// An event binding that is malformed or not enabled.
    IncorrectEventDefinition { message: String, offset: usize },
}

impl View for ParseError {
    type V = ParseErrorModel;

    open spec fn view(&self) -> ParseErrorModel {
        match self {
            ParseError::TokenizeError(e) => ParseErrorModel::TokenizeError(e@),
            ParseError::IncorrectUseStatement { message, offset } =>
                ParseErrorModel::IncorrectUseStatement {
                    message: message@,
                    offset: *offset as int,
                },
            ParseError::IncorrectObjectDefinition { message, offset } =>
                ParseErrorModel::IncorrectObjectDefinition {
                    message: message@,
                    offset: *offset as int,
                },
            ParseError::IncorrectPropertyDefinition { message, offset } =>
                ParseErrorModel::IncorrectPropertyDefinition {
                    message: message@,
                    offset: *offset as int,
                },
            ParseError::IncorrectSyntax { message, offset } => ParseErrorModel::IncorrectSyntax {
                message: message@,
                offset: *offset as int,
            },
            ParseError::IncorrectEventDefinition { message, offset } =>
                ParseErrorModel::IncorrectEventDefinition {
                    message: message@,
                    offset: *offset as int,
                },
        }
    }
}

impl ParseErrorModel {
    /// The stored human-readable message.
    pub open spec fn message(self) -> Seq<char> {
        match self {
            ParseErrorModel::TokenizeError(e) => e.message(),
            ParseErrorModel::IncorrectUseStatement { message, .. } => message,
            ParseErrorModel::IncorrectObjectDefinition { message, .. } => message,
            ParseErrorModel::IncorrectPropertyDefinition { message, .. } => message,
            ParseErrorModel::IncorrectSyntax { message, .. } => message,
            ParseErrorModel::IncorrectEventDefinition { message, .. } => message,
        }
    }

    /// The same error with every offset moved forward by `num`; the message
    /// is kept as it was written.
    pub open spec fn shifted(self, num: int) -> ParseErrorModel {
        match self {
            ParseErrorModel::TokenizeError(e) => ParseErrorModel::TokenizeError(e.shifted(num)),
            ParseErrorModel::IncorrectUseStatement { message, offset } =>
                ParseErrorModel::IncorrectUseStatement { message, offset: offset + num },
            ParseErrorModel::IncorrectObjectDefinition { message, offset } =>
                ParseErrorModel::IncorrectObjectDefinition { message, offset: offset + num },
            ParseErrorModel::IncorrectPropertyDefinition { message, offset } =>
                ParseErrorModel::IncorrectPropertyDefinition { message, offset: offset + num },
            ParseErrorModel::IncorrectSyntax { message, offset } =>
                ParseErrorModel::IncorrectSyntax { message, offset: offset + num },
            ParseErrorModel::IncorrectEventDefinition { message, offset } =>
                ParseErrorModel::IncorrectEventDefinition { message, offset: offset + num },
        }
    }

    /// Whether every offset of this error lies within `[0, hi]`.
    pub open spec fn in_range(self, hi: int) -> bool {
        match self {
            ParseErrorModel::TokenizeError(e) => e.in_range(hi),
            ParseErrorModel::IncorrectUseStatement { offset, .. } => 0 <= offset <= hi,
            ParseErrorModel::IncorrectObjectDefinition { offset, .. } => 0 <= offset <= hi,
            ParseErrorModel::IncorrectPropertyDefinition { offset, .. } => 0 <= offset <= hi,
            ParseErrorModel::IncorrectSyntax { offset, .. } => 0 <= offset <= hi,
            ParseErrorModel::IncorrectEventDefinition { offset, .. } => 0 <= offset <= hi,
        }
    }

    /// Whether every offset of this error, moved forward by `num`, still
    /// fits in a `usize`.
    pub open spec fn shift_fits(self, num: int) -> bool {
        match self {
            ParseErrorModel::TokenizeError(e) => e.shift_fits(num),
            ParseErrorModel::IncorrectUseStatement { offset, .. } => offset + num <= usize::MAX,
            ParseErrorModel::IncorrectObjectDefinition { offset, .. } => offset + num <= usize::MAX,
            ParseErrorModel::IncorrectPropertyDefinition { offset, .. } => offset + num
                <= usize::MAX,
            ParseErrorModel::IncorrectSyntax { offset, .. } => offset + num <= usize::MAX,
            ParseErrorModel::IncorrectEventDefinition { offset, .. } => offset + num <= usize::MAX,
        }
    }
}

/// The message of a parse error: a fixed explanation followed by the
/// offset's decimal rendering.
pub open spec fn offset_msg(prefix: Seq<char>, offset: int) -> Seq<char> {
    prefix + dec_seq(offset)
}

/// Builds the message for a parse error found at `offset`.
pub(crate) fn build_offset_msg(prefix: &str, offset: usize) -> (r: String)
    ensures
        r@ == offset_msg(prefix@, offset as int),
{
    String::from_str(prefix).concat(crate::text::usize_string(offset).as_str())
}

impl ParseError {
    /// The human-readable message carried by this error.
    pub fn get_message(&self) -> (r: &str)
        ensures
            r@ == self@.message(),
    {
        match self {
            Self::TokenizeError(e) => e.get_message(),
            Self::IncorrectUseStatement { message, .. } => message.as_str(),
            Self::IncorrectObjectDefinition { message, .. } => message.as_str(),
            Self::IncorrectPropertyDefinition { message, .. } => message.as_str(),
            Self::IncorrectSyntax { message, .. } => message.as_str(),
            Self::IncorrectEventDefinition { message, .. } => message.as_str(),
        }
    }

    /// Moves every offset of this error forward by `num`, re-basing an
    /// error produced while parsing a sub-slice onto the original input.
    pub fn offset(self, num: usize) -> (r: Self)
        requires
            self@.shift_fits(num as int),
        ensures
            r@ == self@.shifted(num as int),
    {
        match self {
            Self::TokenizeError(e) => Self::TokenizeError(e.offset(num)),
            Self::IncorrectUseStatement { message, offset } => Self::IncorrectUseStatement {
                message,
                offset: offset + num,
            },
            Self::IncorrectObjectDefinition { message, offset } =>
                Self::IncorrectObjectDefinition { message, offset: offset + num },
            Self::IncorrectPropertyDefinition { message, offset } =>
                Self::IncorrectPropertyDefinition { message, offset: offset + num },
            Self::IncorrectSyntax { message, offset } => Self::IncorrectSyntax {
                message,
                offset: offset + num,
            },
            Self::IncorrectEventDefinition { message, offset } => Self::IncorrectEventDefinition {
                message,
                offset: offset + num,
            },
        }
    }
}

} // verus!
