//! What can go wrong while a file is read.

use super::grammar::SyntaxError;
use crate::ply::{Encoding, ScalarType, Version};
use vstd::prelude::*;

verus! {

/// The reason for which reading stopped.
#[derive(Clone, Copy, Debug, PartialEq, Eq, Structural)]
pub enum Fault {
    /// The source ended too early. The field says how many bytes more than
    /// the source had left were asked for; for a line, that is one.
    UnexpectedEof(usize),
    /// A line is not a text in UTF-8.
    InvalidText,
    /// A line does not belong to the grammar.
    Syntax(SyntaxError),
    /// The first line is not the magic number `ply`.
    ExpectedMagicNumber,
    /// The magic number stands on another line than the first.
    UnexpectedMagicNumber,
    /// A `format` line contradicts an earlier one. The first two fields are
    /// those of the later line, the last two those of the earlier.
    ContradictingFormat(Encoding, Version, Encoding, Version),
    /// A `property` line stands before the first `element` line.
    PropertyWithoutElement,
    /// The header ended without a `format` line.
    MissingFormat,
    /// A line of the payload has no field left for a property. The field
    /// is the number of the missing field, counted from 0.
    MissingField(usize),
    /// A field cannot be read as a value of the given type. The first field
    /// is the number of the field in its line, counted from 0.
    InvalidValue(usize, ScalarType),
    /// A field cannot be read as the length of a list. The field is the
    /// number of the field in its line, counted from 0.
    InvalidLength(usize),
    /// A line has no field left for an item of a list. The field is the number
    /// of the missing item in its list, counted from 0.
    MissingListItem(usize),
    /// The length of a list is declared with a type that is no integer type.
    ListIndexType(ScalarType),
    /// A list in a binary payload gives a length below zero.
    NegativeLength,
}

/// An error, with the place where it occurred.
#[derive(Clone, Debug, PartialEq, Eq)]
pub struct ParseError {
    /// The number of the line or, in a binary payload, of the record, counted
    /// from 1 at the start of what was read.
    pub line_index: usize,
    /// The text of the line; empty where the error is not about a line of text.
    pub text: String,
    /// What went wrong.
    pub fault: Fault,
}

/// What a `ParseError` stands for in contracts.
pub struct ParseErrorView {
    pub line_index: usize,
    pub text: Seq<char>,
    pub fault: Fault,
}

impl View for ParseError {
    type V = ParseErrorView;

    open spec fn view(&self) -> ParseErrorView {
        ParseErrorView { line_index: self.line_index, text: self.text@, fault: self.fault }
    }
}

impl ParseError {
    /// The error that `fault` occurred on line `line_index`, which reads `text`.
    pub fn new(line_index: usize, text: &str, fault: Fault) -> (r: Self)
        ensures
            r@ == (ParseErrorView { line_index, text: text@, fault }),
    {
        ParseError { line_index, text: text.to_owned(), fault }
    }

    /// The error that `fault` occurred at `line_index`, where no line of text
    /// is at fault.
    pub fn at(line_index: usize, fault: Fault) -> (r: Self)
        ensures
            r@ == (ParseErrorView { line_index, text: Seq::empty(), fault }),
    {
        ParseError { line_index, text: String::new(), fault }
    }
}

} // verus!
