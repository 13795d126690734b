//! The tokens of a Tero document and the errors of the lexical stage.
use vstd::prelude::*;
use crate::source::Span;

verus! {

/// Critical errors that can occur during the lexical analysis phase.
///
/// These errors represent failures at the byte and character level before the
/// token stream reaches the parser.
#[derive(Debug, PartialEq, Eq, Clone, Copy)]
pub enum LexError {
    /// The `.tero` file version header is invalid or not supported.
    InvalidVersion,
    /// A character that does not belong to the grammar.
    InvalidCharacter(char),
    /// A string literal left open before the end of the file or line.
    UnterminatedString,
    /// The input ended in the middle of a token.
    UnexpectedEOF,
    /// A numeric literal whose value does not fit in an `i64`.
    NumericOverflow,
}

/// The magnitude of a floating-point literal.
#[derive(Debug, PartialEq, Eq, Clone, Copy)]
pub enum FloatKind {
    /// A decimal literal: its integer part and the span of the digits
    /// after the point (which may hold `_` separators).
    Decimal { integer: i64, fraction: Span },
    /// `NaN`.
    NaN,
    /// `Infinity`.
    Infinity,
}

/// A floating-point literal, kept exactly as written: the value it denotes
/// is obtained from its integer part and fraction digits.
#[derive(Debug, PartialEq, Eq, Clone, Copy)]
pub struct FloatLiteral {
    /// Whether the literal was negated with `-`.
    pub negative: bool,
    /// The magnitude.
    pub kind: FloatKind,
}

/// The lexical units emitted by the lexer. Text tokens point into the
/// source instead of copying it.
#[derive(Debug, PartialEq, Eq, Clone, Copy)]
pub enum Token {
    /// An integer literal.
    Int(i64),
    /// A floating-point literal.
    Float(FloatLiteral),
    /// A string literal without escape sequences; the span covers the text
    /// between the quotes.
    RawText(Span),
    /// A string literal with escape sequences (`\n`, `\"`, ...).
    Text(Span),
    /// `true` or `false`.
    Boolean(bool),
    /// `nil`.
    Nil,
    /// A key name.
    Identifier(Span),
    /// `:`
    Colon,
    /// `,`
    Comma,
    /// `{`
    LeftBrace,
    /// `}`
    RightBrace,
    /// `[`
    LeftBracket,
    /// `]`
    RightBracket,
    /// A line break.
    Newline,
    /// `-`
    Sub,
}

impl FloatLiteral {
    /// The same literal with the sign flipped.
    pub open spec fn spec_negate(self) -> FloatLiteral {
        FloatLiteral { negative: !self.negative, kind: self.kind }
    }

    /// The same literal with the sign flipped.
    pub fn negate(self) -> (r: FloatLiteral)
        ensures
            r == self.spec_negate(),
    {
        FloatLiteral { negative: !self.negative, kind: self.kind }
    }
}

impl Token {
    /// True for the tokens that stand for a value on their own.
    pub open spec fn is_literal(self) -> bool {
        match self {
            Token::Int(_) | Token::Float(_) | Token::Boolean(_) | Token::RawText(_)
            | Token::Text(_) | Token::Nil => true,
            _ => false,
        }
    }
}

} // verus!
