//! Tokens produced by the lexer and the errors of the lexer and the tree
//! builder, with their mathematical models.
use vstd::prelude::*;
use crate::text::{decimal, push_decimal, push_str, push_chars, chars_of};

verus! {

/// What a token is.
#[derive(Debug, Clone, PartialEq)]
pub enum TokenKind {
    TagOpen(String),
    TagClose(String),
    SelfClosingEnd,
    TagEnd,
    Attribute(String, String),
    Text(String),
    Comment(String),
    CData(String),
    ProcessingInstruction(String, String),
}

/// A token with the line and column (both from 1) of the construct it came from.
#[derive(Debug, Clone, PartialEq)]
pub struct Token {
    pub kind: TokenKind,
    pub line: usize,
    pub column: usize,
}

/// An error of the lexer or of the tree builder, with the line and column it refers to.
#[derive(Debug, PartialEq)]
pub enum XmlError {
    Syntax { line: usize, col: usize, message: String },
    MismatchedTag { line: usize, col: usize, expected: String, found: String },
}

/// The model of a `TokenKind`: its strings as character sequences.
pub enum KindModel {
    TagOpen(Seq<char>),
    TagClose(Seq<char>),
    SelfClosingEnd,
    TagEnd,
    Attribute(Seq<char>, Seq<char>),
    Text(Seq<char>),
    Comment(Seq<char>),
    CData(Seq<char>),
    ProcessingInstruction(Seq<char>, Seq<char>),
}

/// The model of a `Token`.
pub struct TokenModel {
    pub kind: KindModel,
    pub line: int,
    pub column: int,
}

/// The model of an `XmlError`.
pub enum ErrorModel {
    Syntax { line: int, col: int, message: Seq<char> },
    MismatchedTag { line: int, col: int, expected: Seq<char>, found: Seq<char> },
}

impl View for TokenKind {
    type V = KindModel;

    open spec fn view(&self) -> KindModel {
        match self {
            TokenKind::TagOpen(s) => KindModel::TagOpen(s@),
            TokenKind::TagClose(s) => KindModel::TagClose(s@),
            TokenKind::SelfClosingEnd => KindModel::SelfClosingEnd,
            TokenKind::TagEnd => KindModel::TagEnd,
            TokenKind::Attribute(k, v) => KindModel::Attribute(k@, v@),
            TokenKind::Text(s) => KindModel::Text(s@),
            TokenKind::Comment(s) => KindModel::Comment(s@),
            TokenKind::CData(s) => KindModel::CData(s@),
            TokenKind::ProcessingInstruction(t, c) => KindModel::ProcessingInstruction(t@, c@),
        }
    }
}

impl View for Token {
    type V = TokenModel;

    open spec fn view(&self) -> TokenModel {
        TokenModel { kind: self.kind@, line: self.line as int, column: self.column as int }
    }
}

impl View for XmlError {
    type V = ErrorModel;

    open spec fn view(&self) -> ErrorModel {
        match self {
            XmlError::Syntax { line, col, message } => ErrorModel::Syntax {
                line: *line as int,
                col: *col as int,
                message: message@,
            },
            XmlError::MismatchedTag { line, col, expected, found } => ErrorModel::MismatchedTag {
                line: *line as int,
                col: *col as int,
                expected: expected@,
                found: found@,
            },
        }
    }
}

/// The models of a sequence of tokens.
pub open spec fn tokens_model(ts: Seq<Token>) -> Seq<TokenModel> {
    ts.map_values(|t: Token| t@)
}

/// The human-readable description of an error.
pub open spec fn error_text(e: ErrorModel) -> Seq<char> {
    match e {
        ErrorModel::Syntax { line, col, message } => "Syntax Error at "@ + decimal(line as nat)
            + ":"@ + decimal(col as nat) + ": "@ + message,
        ErrorModel::MismatchedTag { line, col, expected, found } => "Tag Error at "@ + decimal(
            line as nat,
        ) + ":"@ + decimal(col as nat) + ": Expected </"@ + expected + ">, found </"@ + found
            + ">"@,
    }
}

impl XmlError {
    /// The human-readable description of the error, as in
    /// `Syntax Error at 3:7: Unclosed comment` or
    /// `Tag Error at 2:1: Expected </a>, found </b>`.
    pub fn display_string(&self) -> (r: String)
        ensures
            r@ == error_text(self@),
    {
        let mut out = String::new();
        match self {
            XmlError::Syntax { line, col, message } => {
                push_str(&mut out, "Syntax Error at ");
                push_decimal(&mut out, *line);
                push_str(&mut out, ":");
                push_decimal(&mut out, *col);
                push_str(&mut out, ": ");
                push_chars(&mut out, &chars_of(message.as_str()));
            },
            XmlError::MismatchedTag { line, col, expected, found } => {
                push_str(&mut out, "Tag Error at ");
                push_decimal(&mut out, *line);
                push_str(&mut out, ":");
                push_decimal(&mut out, *col);
                push_str(&mut out, ": Expected </");
                push_chars(&mut out, &chars_of(expected.as_str()));
                push_str(&mut out, ">, found </");
                push_chars(&mut out, &chars_of(found.as_str()));
                push_str(&mut out, ">");
            },
        }
        assert(out@ =~= error_text(self@));
        out
    }
}

} // verus!
