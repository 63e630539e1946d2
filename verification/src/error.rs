//! What a reader reports when it gives up.

use crate::grammar::SyntaxError;
use crate::parser::LineKind;
use crate::ply::{Encoding, Version};
use vstd::prelude::*;

verus! {

/// The ways in which reading a file can fail.
#[derive(Debug, Clone, Copy, PartialEq, Eq, Structural)]
pub enum ErrorKind {
    /// A line of the header does not follow the grammar.
    InvalidInput,
    /// The header does not start with the magic number, repeats it, or holds
    /// two format lines that disagree.
    InvalidHeader,
    /// Two elements of a header have the same name.
    DuplicateElement,
    /// Two properties of an element have the same name.
    DuplicateProperty,
    /// A property is declared before any element.
    PropertyBeforeElement,
    /// The header ends without a format line.
    MissingFormat,
    /// A record of an ASCII payload lacks a number or holds a token that is
    /// none, or a list of any payload has no proper length.
    MalformedRecord,
    /// The input ends before the header or the declared records do.
    UnexpectedEof,
}

/// What more is known of an error.
#[derive(Debug, Clone, Copy, PartialEq, Eq)]
pub enum Detail {
    /// Nothing more.
    Nothing,
    /// The line does not follow the grammar: what the grammar found wrong
    /// with it.
    Syntax(SyntaxError),
    /// The line follows the grammar, but a line of its kind cannot stand
    /// where it stands.
    Unexpected(LineKind),
    /// The format line disagrees with an earlier one: what it says, and what
    /// the earlier one said.
    Formats { found: (Encoding, Version), previous: (Encoding, Version) },
}

impl ErrorKind {
    /// What went wrong, in a sentence.
    pub open spec fn spec_cause(self) -> Seq<char> {
        match self {
            ErrorKind::InvalidInput => "The line does not follow the grammar of a header."@,
            ErrorKind::InvalidHeader =>
                "The header has no magic number in its first line, repeats it, or holds format lines that disagree."@,
            ErrorKind::DuplicateElement => "Two elements have the same name."@,
            ErrorKind::DuplicateProperty => "Two properties of an element have the same name."@,
            ErrorKind::PropertyBeforeElement => "A property is declared before any element."@,
            ErrorKind::MissingFormat => "The header has no format line."@,
            ErrorKind::MalformedRecord =>
                "The record lacks a number, or holds what is no number of the declared kind."@,
            ErrorKind::UnexpectedEof => "The input ends too early."@,
        }
    }

    /// What went wrong, in a sentence.
    pub fn cause(self) -> (r: &'static str)
        ensures
            r@ == self.spec_cause(),
    {
        match self {
            ErrorKind::InvalidInput => "The line does not follow the grammar of a header.",
            ErrorKind::InvalidHeader =>
                "The header has no magic number in its first line, repeats it, or holds format lines that disagree.",
            ErrorKind::DuplicateElement => "Two elements have the same name.",
            ErrorKind::DuplicateProperty => "Two properties of an element have the same name.",
            ErrorKind::PropertyBeforeElement => "A property is declared before any element.",
            ErrorKind::MissingFormat => "The header has no format line.",
            ErrorKind::MalformedRecord =>
                "The record lacks a number, or holds what is no number of the declared kind.",
            ErrorKind::UnexpectedEof => "The input ends too early.",
        }
    }
}

/// An error with what is known of its place and cause.
#[derive(Debug, Clone, PartialEq, Eq)]
pub struct ParseError {
    pub kind: ErrorKind,
    /// The number of the line at fault, counted from 1; 0 where no line is
    /// known.
    pub line: usize,
    /// The text of the line at fault; empty where there is none.
    pub text: String,
    /// What more is known: what the grammar found wrong with the line, of
    /// which kind the line is, or which formats disagree.
    pub detail: Detail,
    /// The name of the element concerned; empty where there is none.
    pub element: String,
    /// The name of the property concerned; empty where there is none.
    pub property: String,
    /// The token at fault; empty where there is none.
    pub token: String,
}

/// An error as a mathematical value.
pub struct ParseErrorView {
    pub kind: ErrorKind,
    pub line: usize,
    pub text: Seq<char>,
    pub detail: Detail,
    pub element: Seq<char>,
    pub property: Seq<char>,
    pub token: Seq<char>,
}

impl View for ParseError {
    type V = ParseErrorView;

    open spec fn view(&self) -> ParseErrorView {
        ParseErrorView {
            kind: self.kind,
            line: self.line,
            text: self.text@,
            detail: self.detail,
            element: self.element@,
            property: self.property@,
            token: self.token@,
        }
    }
}

impl ParseErrorView {
    /// An error of which only the kind is known.
    pub open spec fn new(kind: ErrorKind) -> ParseErrorView {
        ParseErrorView {
            kind,
            line: 0,
            text: Seq::empty(),
            detail: Detail::Nothing,
            element: Seq::empty(),
            property: Seq::empty(),
            token: Seq::empty(),
        }
    }

    /// The same error, found in the line of number `line` with text `text`.
    pub open spec fn at(self, line: usize, text: Seq<char>) -> ParseErrorView {
        ParseErrorView { line, text, ..self }
    }

    /// The same error with what more is known of it.
    pub open spec fn with_detail(self, detail: Detail) -> ParseErrorView {
        ParseErrorView { detail, ..self }
    }

    /// The same error, about the element `element`.
    pub open spec fn with_element(self, element: Seq<char>) -> ParseErrorView {
        ParseErrorView { element, ..self }
    }

    /// The same error, about the property `property`.
    pub open spec fn with_property(self, property: Seq<char>) -> ParseErrorView {
        ParseErrorView { property, ..self }
    }

    /// The same error, with the token at fault.
    pub open spec fn with_token(self, token: Seq<char>) -> ParseErrorView {
        ParseErrorView { token, ..self }
    }
}

impl ParseError {
    /// An error of which only the kind is known.
    pub fn new(kind: ErrorKind) -> (r: Self)
        ensures
            r@ == ParseErrorView::new(kind),
    {
        ParseError {
            kind,
            line: 0,
            text: String::new(),
            detail: Detail::Nothing,
            element: String::new(),
            property: String::new(),
            token: String::new(),
        }
    }

    /// The same error, found in the line of number `line` with text `text`.
    pub fn at(self, line: usize, text: String) -> (r: Self)
        ensures
            r@ == self@.at(line, text@),
    {
        ParseError { line, text, ..self }
    }

    /// The same error with what more is known of it.
    pub fn with_detail(self, detail: Detail) -> (r: Self)
        ensures
            r@ == self@.with_detail(detail),
    {
        ParseError { detail, ..self }
    }

    /// The same error, about the element `element`.
    pub fn with_element(self, element: String) -> (r: Self)
        ensures
            r@ == self@.with_element(element@),
    {
        ParseError { element, ..self }
    }

    /// The same error, about the property `property`.
    pub fn with_property(self, property: String) -> (r: Self)
        ensures
            r@ == self@.with_property(property@),
    {
        ParseError { property, ..self }
    }

    /// The same error, with the token at fault.
    pub fn with_token(self, token: String) -> (r: Self)
        ensures
            r@ == self@.with_token(token@),
    {
        ParseError { token, ..self }
    }

    /// What went wrong, in a sentence.
    pub fn cause(&self) -> (r: &'static str)
        ensures
            r@ == self.kind.spec_cause(),
    {
        self.kind.cause()
    }
}

} // verus!
