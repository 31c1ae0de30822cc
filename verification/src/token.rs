//! The token taxonomy: one variant per lexical unit, plus the error
//! taxonomy for the fatal scan failures.

use vstd::prelude::*;

verus! {

/// One lexical unit, as the scanner's mathematical model sees it.
///
/// Textual payloads are character sequences; the integer payload is an
/// unbounded integer (the scanner itself only ever produces values that
/// fit in `i64`). This is the view type of [`Token`].
pub enum SpecToken {
    /// The keyword `var`.
    Var,
    /// An identifier: any alphanumeric/underscore word that is not in the
    /// fixed keyword table, carrying its exact text.
    Keyword(Seq<char>),
    /// An integer literal and its value.
    IntLiteral(int),
    /// A float literal, carried as its exact digits-and-dot text.
    FloatLiteral(Seq<char>),
    /// A string literal's text, without the surrounding quotes.
    StringLiteral(Seq<char>),
    /// A character literal's single character.
    CharLiteral(char),
    /// The keyword `true`.
    True,
    /// The keyword `false`.
    False,
    /// The keyword `func`.
    Func,
    /// The keyword `for`.
    For,
    /// The keyword `if`.
    If,
    /// The keyword `else`.
    Else,
    /// The keyword `switch`.
    Switch,
    /// The keyword `case`.
    Case,
    /// The keyword `in`.
    In,
    /// The keyword `struct`.
    Struct,
    /// The keyword `enum`.
    Enum,
    /// `+`
    Plus,
    /// `-`
    Minus,
    /// `/`
    Divide,
    /// `*`
    Multiply,
    /// `=`
    Equal,
    /// `>`
    GreaterThan,
    /// `<`
    LessThan,
    /// `==`
    EqualTo,
    /// `>=`
    GreaterEqual,
    /// `<=`
    LessEqual,
    /// `!`
    Bang,
    /// `!=`
    BangEqual,
    /// `.`
    Dot,
    /// `,`
    Comma,
    /// `->`
    Range,
    /// `(`
    OpenParen,
    /// `)`
    CloseParen,
    /// `{`
    OpenBrace,
    /// `}`
    CloseBrace,
    /// `[`
    OpenBracket,
    /// `]`
    CloseBracket,
    /// `:`
    Colon,
    /// The keyword `return`.
    Return,
    /// `;`
    SemiColon,
}

/// One lexical unit of source text.
///
/// Float literals carry their exact lexeme (digits with one embedded dot)
/// rather than a machine float, so that the scanner states nothing about
/// rounding; a downstream consumer parses the lexeme into whatever float
/// width it wants. `Keyword` is the catch-all identifier variant; the
/// thirteen words of the fixed keyword table get nullary variants.
#[derive(Debug, Clone, PartialEq)]
pub enum Token {
    Var,
    Keyword(String),
    IntLiteral(i64),
    FloatLiteral(String),
    StringLiteral(String),
    CharLiteral(char),
    True,
    False,
    Func,
    For,
    If,
    Else,
    Switch,
    Case,
    In,
    Struct,
    Enum,
    Plus,
    Minus,
    Divide,
    Multiply,
    Equal,
    GreaterThan,
    LessThan,
    EqualTo,
    GreaterEqual,
    LessEqual,
    Bang,
    BangEqual,
    Dot,
    Comma,
    Range,
    OpenParen,
    CloseParen,
    OpenBrace,
    CloseBrace,
    OpenBracket,
    CloseBracket,
    Colon,
    Return,
    SemiColon,
}

impl View for Token {
    type V = SpecToken;

    open spec fn view(&self) -> SpecToken {
        match self {
            Token::Var => SpecToken::Var,
            Token::Keyword(w) => SpecToken::Keyword(w@),
            Token::IntLiteral(v) => SpecToken::IntLiteral(*v as int),
            Token::FloatLiteral(t) => SpecToken::FloatLiteral(t@),
            Token::StringLiteral(t) => SpecToken::StringLiteral(t@),
            Token::CharLiteral(c) => SpecToken::CharLiteral(*c),
            Token::True => SpecToken::True,
            Token::False => SpecToken::False,
            Token::Func => SpecToken::Func,
            Token::For => SpecToken::For,
            Token::If => SpecToken::If,
            Token::Else => SpecToken::Else,
            Token::Switch => SpecToken::Switch,
            Token::Case => SpecToken::Case,
            Token::In => SpecToken::In,
            Token::Struct => SpecToken::Struct,
            Token::Enum => SpecToken::Enum,
            Token::Plus => SpecToken::Plus,
            Token::Minus => SpecToken::Minus,
            Token::Divide => SpecToken::Divide,
            Token::Multiply => SpecToken::Multiply,
            Token::Equal => SpecToken::Equal,
            Token::GreaterThan => SpecToken::GreaterThan,
            Token::LessThan => SpecToken::LessThan,
            Token::EqualTo => SpecToken::EqualTo,
            Token::GreaterEqual => SpecToken::GreaterEqual,
            Token::LessEqual => SpecToken::LessEqual,
            Token::Bang => SpecToken::Bang,
            Token::BangEqual => SpecToken::BangEqual,
            Token::Dot => SpecToken::Dot,
            Token::Comma => SpecToken::Comma,
            Token::Range => SpecToken::Range,
            Token::OpenParen => SpecToken::OpenParen,
            Token::CloseParen => SpecToken::CloseParen,
            Token::OpenBrace => SpecToken::OpenBrace,
            Token::CloseBrace => SpecToken::CloseBrace,
            Token::OpenBracket => SpecToken::OpenBracket,
            Token::CloseBracket => SpecToken::CloseBracket,
            Token::Colon => SpecToken::Colon,
            Token::Return => SpecToken::Return,
            Token::SemiColon => SpecToken::SemiColon,
        }
    }
}

/// The fatal scan failures. Every one aborts the whole scan: the caller
/// gets either a complete token sequence or exactly one of these.
#[derive(Debug, Clone, Copy, PartialEq, Eq)]
pub enum ScanError {
    /// `'` opened without a one-character body and a closing `'`.
    UnterminatedCharacterLiteral,
    /// `"` opened with no closing `"` before the end of the input.
    UnterminatedStringLiteral,
    /// A digits-and-dots run that is no well-formed integer or float:
    /// more than one dot, or an integer value that overflows `i64`.
    MalformedNumericLiteral,
    /// A character that matches no category, carried for the diagnostic.
    UnrecognizedCharacter(char),
}

/// Classification of a completed word against the fixed keyword table:
/// an exact, case-sensitive hit yields the keyword's token, anything else
/// an identifier token carrying the word's text.
pub open spec fn spec_keyword(w: Seq<char>) -> SpecToken {
    if w == "true"@ {
        SpecToken::True
    } else if w == "false"@ {
        SpecToken::False
    } else if w == "func"@ {
        SpecToken::Func
    } else if w == "var"@ {
        SpecToken::Var
    } else if w == "if"@ {
        SpecToken::If
    } else if w == "else"@ {
        SpecToken::Else
    } else if w == "for"@ {
        SpecToken::For
    } else if w == "switch"@ {
        SpecToken::Switch
    } else if w == "case"@ {
        SpecToken::Case
    } else if w == "return"@ {
        SpecToken::Return
    } else if w == "in"@ {
        SpecToken::In
    } else if w == "struct"@ {
        SpecToken::Struct
    } else if w == "enum"@ {
        SpecToken::Enum
    } else {
        SpecToken::Keyword(w)
    }
}

} // verus!
