//! A compiler for a compact, bracket-delimited markup language describing
//! nested UI component trees, producing the XML document that a declarative
//! UI-construction toolkit consumes.
//!
//! The pipeline is: lexical tokenizer ([`tokenizer`]) -> recursive-descent
//! parser ([`parser`]) -> abstract syntax tree ([`ast`]) -> XML serializer
//! ([`xml`]), with byte-accurate source offsets carried through every
//! recursive re-parse so that error positions ([`tokenize_error`],
//! [`parse_error`]) always refer to the original input.
//!
//! Every executable function is specified against a mathematical model of
//! its input and output: the tokenizer and parser return exactly what the
//! spec functions [`tokenizer::spec_tokenize`] and [`parser::spec_parse`]
//! say, and the serializers return exactly the character sequences of the
//! spec functions in [`xml`] and [`dbg`]. The crate-wide properties proved
//! on top of those models live in [`laws`].

pub mod ast;
pub mod dbg;
pub mod laws;
pub mod parse_error;
pub mod parser;
pub mod text;
pub mod token;
pub mod tokenize_error;
pub mod tokenizer;
pub mod xml;
