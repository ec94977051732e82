//! Lexical errors, each carrying a human-readable message and the source
//! offset(s) at which tokenizing failed.

use vstd::prelude::*;

use crate::text::dec_seq;

verus! {

/// Mathematical model of a [`TokenizeError`].
pub enum TokenizeErrorModel {
    IncorrectChar { message: Seq<char>, wrong_string: Seq<char>, offset: int },
    IncorrectString { message: Seq<char>, begin: int, end: int, wrong_string: Seq<char> },
    IncorrectBrackets { message: Seq<char>, begin: int, end: int, wrong_string: Seq<char> },
}

/// An error produced by the tokenizer. Offsets are character indices into
/// the original input.
#[derive(Debug, Clone, PartialEq, Eq)]
pub enum TokenizeError {
    /// A character that may not start or continue a token at this position.
    IncorrectChar { message: String, wrong_string: String, offset: usize },
    /// A string literal whose closing quote was never found.
    IncorrectString { message: String, begin: usize, end: usize, wrong_string: String },
    /// A bracket group whose matching closer was never found.
    IncorrectBrackets { message: String, begin: usize, end: usize, wrong_string: String },
}

impl View for TokenizeError {
    type V = TokenizeErrorModel;

    open spec fn view(&self) -> TokenizeErrorModel {
        match self {
            TokenizeError::IncorrectChar { message, wrong_string, offset } =>
                TokenizeErrorModel::IncorrectChar {
                    message: message@,
                    wrong_string: wrong_string@,
                    offset: *offset as int,
                },
            TokenizeError::IncorrectString { message, begin, end, wrong_string } =>
                TokenizeErrorModel::IncorrectString {
                    message: message@,
                    begin: *begin as int,
                    end: *end as int,
                    wrong_string: wrong_string@,
                },
            TokenizeError::IncorrectBrackets { message, begin, end, wrong_string } =>
                TokenizeErrorModel::IncorrectBrackets {
                    message: message@,
                    begin: *begin as int,
                    end: *end as int,
                    wrong_string: wrong_string@,
                },
        }
    }
}

/// The message reported for a character `c` that may not stand at `offset`.
pub open spec fn incorrect_char_msg(c: Seq<char>, offset: int) -> Seq<char> {
    "Incorrect character ("@ + c + ") found at offset "@ + dec_seq(offset)
}

/// The message reported for an unterminated string literal.
pub open spec fn incorrect_string_msg(begin: int, end: int) -> Seq<char> {
    "Incorrect string format found from offset "@ + dec_seq(begin) + " to "@ + dec_seq(end)
}

/// The message reported for an unbalanced or mismatched bracket group.
pub open spec fn incorrect_brackets_msg(begin: int, end: int) -> Seq<char> {
    "Incorrect brackets format found from offset "@ + dec_seq(begin) + " to "@ + dec_seq(end)
}

impl TokenizeErrorModel {
    /// The stored human-readable message.
    pub open spec fn message(self) -> Seq<char> {
        match self {
            TokenizeErrorModel::IncorrectChar { message, .. } => message,
            TokenizeErrorModel::IncorrectString { message, .. } => message,
            TokenizeErrorModel::IncorrectBrackets { message, .. } => message,
        }
    }

    /// The same error with every offset moved forward by `num`; the message
    /// is kept as it was written.
    pub open spec fn shifted(self, num: int) -> TokenizeErrorModel {
        match self {
            TokenizeErrorModel::IncorrectChar { message, wrong_string, offset } =>
                TokenizeErrorModel::IncorrectChar { message, wrong_string, offset: offset + num },
            TokenizeErrorModel::IncorrectString { message, begin, end, wrong_string } =>
                TokenizeErrorModel::IncorrectString {
                    message,
                    begin: begin + num,
                    end: end + num,
                    wrong_string,
                },
            TokenizeErrorModel::IncorrectBrackets { message, begin, end, wrong_string } =>
                TokenizeErrorModel::IncorrectBrackets {
                    message,
                    begin: begin + num,
                    end: end + num,
                    wrong_string,
                },
        }
    }

    /// Whether every offset of this error lies within `[0, hi]`.
    pub open spec fn in_range(self, hi: int) -> bool {
        match self {
            TokenizeErrorModel::IncorrectChar { offset, .. } => 0 <= offset <= hi,
            TokenizeErrorModel::IncorrectString { begin, end, .. } => 0 <= begin <= hi && 0 <= end
                <= hi,
            TokenizeErrorModel::IncorrectBrackets { begin, end, .. } => 0 <= begin <= hi && 0 <= end
                <= hi,
        }
    }

    /// Whether every offset of this error, moved forward by `num`, still
    /// fits in a `usize`.
    pub open spec fn shift_fits(self, num: int) -> bool {
        match self {
            TokenizeErrorModel::IncorrectChar { offset, .. } => offset + num <= usize::MAX,
            TokenizeErrorModel::IncorrectString { begin, end, .. } => begin + num <= usize::MAX
                && end + num <= usize::MAX,
            TokenizeErrorModel::IncorrectBrackets { begin, end, .. } => begin + num <= usize::MAX
                && end + num <= usize::MAX,
        }
    }
}

/// Builds an `IncorrectChar` error for the one-character string `c` found at
/// `offset` while the bareword `wrong_string` was being accumulated.
pub(crate) fn incorrect_char_error(c: &str, offset: usize, wrong_string: String) -> (r:
    TokenizeError)
    ensures
        r@ == (TokenizeErrorModel::IncorrectChar {
            message: incorrect_char_msg(c@, offset as int),
            wrong_string: wrong_string@,
            offset: offset as int,
        }),
{
    let message = String::from_str("Incorrect character (").concat(c).concat(
        ") found at offset ",
    ).concat(crate::text::usize_string(offset).as_str());
    TokenizeError::IncorrectChar { message, wrong_string, offset }
}

/// Builds an `IncorrectString` error for an unterminated string literal
/// spanning `begin..=end`.
pub(crate) fn incorrect_string_error(begin: usize, end: usize, wrong_string: String) -> (r:
    TokenizeError)
    ensures
        r@ == (TokenizeErrorModel::IncorrectString {
            message: incorrect_string_msg(begin as int, end as int),
            begin: begin as int,
            end: end as int,
            wrong_string: wrong_string@,
        }),
{
    let message = String::from_str("Incorrect string format found from offset ").concat(
        crate::text::usize_string(begin).as_str(),
    ).concat(" to ").concat(crate::text::usize_string(end).as_str());
    TokenizeError::IncorrectString { message, begin, end, wrong_string }
}

/// Builds an `IncorrectBrackets` error for an unbalanced bracket group
/// spanning `begin..=end`.
pub(crate) fn incorrect_brackets_error(begin: usize, end: usize, wrong_string: String) -> (r:
    TokenizeError)
    ensures
        r@ == (TokenizeErrorModel::IncorrectBrackets {
            message: incorrect_brackets_msg(begin as int, end as int),
            begin: begin as int,
            end: end as int,
            wrong_string: wrong_string@,
        }),
{
    let message = String::from_str("Incorrect brackets format found from offset ").concat(
        crate::text::usize_string(begin).as_str(),
    ).concat(" to ").concat(crate::text::usize_string(end).as_str());
    TokenizeError::IncorrectBrackets { message, begin, end, wrong_string }
}

impl TokenizeError {
    /// The human-readable message carried by this error.
    pub fn get_message(&self) -> (r: &str)
        ensures
            r@ == self@.message(),
    {
        match self {
            Self::IncorrectChar { message, .. } => message.as_str(),
            Self::IncorrectString { message, .. } => message.as_str(),
            Self::IncorrectBrackets { message, .. } => message.as_str(),
        }
    }

    /// Moves every offset of this error forward by `num`, re-basing an error
    /// produced while parsing a sub-slice onto the original input.
    pub fn offset(self, num: usize) -> (r: Self)
        requires
            self@.shift_fits(num as int),
        ensures
            r@ == self@.shifted(num as int),
    {
        match self {
            TokenizeError::IncorrectChar { message, wrong_string, offset } =>
                TokenizeError::IncorrectChar {
                    message,
                    wrong_string,
                    offset: offset + num,
                },
            TokenizeError::IncorrectString { message, begin, end, wrong_string } =>
                TokenizeError::IncorrectString {
                    message,
                    begin: begin + num,
                    end: end + num,
                    wrong_string,
                },
            TokenizeError::IncorrectBrackets { message, begin, end, wrong_string } =>
                TokenizeError::IncorrectBrackets {
                    message,
                    begin: begin + num,
                    end: end + num,
                    wrong_string,
                },
        }
    }
}

} // verus!
