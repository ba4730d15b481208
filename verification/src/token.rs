//! Token data model: source locations, punctuation, literals, errors, and
//! the token values handed to the preprocessor.

use vstd::prelude::*;

verus! {

/// A position in the source text.  `line` is 1-based and counts preceding
/// logical newlines plus one; `pos` is the 0-based column, counting
/// characters consumed since the last newline.
#[derive(Clone, Copy, PartialEq, Eq, Structural, Debug)]
pub struct Location {
    pub line: u32,
    pub pos: u32,
}

/// The fixed, closed set of punctuation symbols, ordered by matching
/// priority: three-character compound assignments first, then two-character
/// operators, then single characters.
#[derive(Clone, Copy, PartialEq, Eq, Structural, Debug)]
pub enum Punct {
    // Compound assignments
    AddAssign,
    SubAssign,
    MulAssign,
    DivAssign,
    ModAssign,
    LeftShiftAssign,
    RightShiftAssign,
    AndAssign,
    XorAssign,
    OrAssign,
    // Two character punctuation
    Increment,
    Decrement,
    LogicalAnd,
    LogicalOr,
    LogicalXor,
    LessEqual,
    GreaterEqual,
    EqualEqual,
    NotEqual,
    LeftShift,
    RightShift,
    // Parenthesis or similar
    LeftBrace,
    RightBrace,
    LeftParen,
    RightParen,
    LeftBracket,
    RightBracket,
    // Other one character punctuation
    LeftAngle,
    RightAngle,
    Semicolon,
    Comma,
    Colon,
    Dot,
    Equal,
    Bang,
    Minus,
    Tilde,
    Plus,
    Star,
    Slash,
    Percent,
    Pipe,
    Caret,
    Ampersand,
    Question,
}

/// Errors reported by the lexer and by the preprocessor built on top of it.
/// Lexical errors are ordinary values interleaved in the token stream; the
/// lexer never aborts on one.
#[derive(PartialEq, Debug)]
pub enum PreprocessorError {
    IntegerOverflow,
    FloatParsingError,
    UnexpectedCharacter,
    UnexpectedToken(TokenValue),
    UnexpectedHash,
    UnexpectedNewLine,
    UnexpectedEndOfInput,
    TooFewDefineArguments,
    TooManyDefineArguments,
    ErrorDirective,
    DuplicateParameter,
    UnknownDirective,
    DefineRedefined,
    ElifOutsideOfBlock,
    ElseOutsideOfBlock,
    EndifOutsideOfBlock,
    ElifAfterElse,
    MoreThanOneElse,
    UnfinishedBlock,
    LineOverflow,
    NotSupported16BitLiteral,
    NotSupported64BitLiteral,
    MacroNotDefined,
    RecursionLimitReached,
}

/// An integer literal: its value after radix conversion, its signedness
/// (unsigned when a `u`/`U` suffix was present), and its width in bits.
#[derive(Clone, Copy, PartialEq, Eq, Structural, Debug)]
pub struct Integer {
    pub value: u64,
    pub signed: bool,
    pub width: i32,
}

/// A float literal.  The verified core keeps the literal's decimal text
/// (digits, and possibly one `.`), leaving the conversion to a machine
/// float to unverified callers; `width` is the width in bits selected by
/// the suffix.
#[derive(Clone, PartialEq, Eq, Debug)]
pub struct Float {
    pub digits: String,
    pub width: i32,
}

/// Tokens of a `#version` directive, with the context the preprocessor
/// needs to validate it.
#[derive(PartialEq, Debug)]
pub struct Version {
    pub tokens: Vec<Token>,
    pub is_first_directive: bool,
    pub has_comments_before: bool,
}

/// Tokens of a `#extension` directive.
#[derive(PartialEq, Debug)]
pub struct Extension {
    pub tokens: Vec<Token>,
    pub has_non_directive_before: bool,
}

/// Tokens of a `#pragma` directive.
#[derive(PartialEq, Debug)]
pub struct Pragma {
    pub tokens: Vec<Token>,
}

/// A token value as seen by consumers of the preprocessor.
#[derive(PartialEq, Debug)]
pub enum TokenValue {
    Ident(String),
    Integer(Integer),
    Float(Float),
    Punct(Punct),
    Version(Version),
    Extension(Extension),
    Pragma(Pragma),
}

/// A token paired with the location of its first character.
#[derive(PartialEq, Debug)]
pub struct Token {
    pub value: TokenValue,
    pub location: Location,
}


/// Clones each token of a directive's token list.  The `Clone` impls of
/// the token types are written by hand because their mutual recursion
/// (a token may hold a directive, which holds tokens) needs an explicit
/// termination measure.
fn clone_tokens(ts: &Vec<Token>) -> (r: Vec<Token>)
    decreases *ts,
{
    broadcast use vstd::std_specs::vec::axiom_vec_index_decreases;

    let mut out: Vec<Token> = Vec::new();
    let mut i: usize = 0;
    while i < ts.len()
        invariant
            i <= ts.len(),
        decreases ts.len() - i,
    {
        out.push(ts[i].clone());
        i = i + 1;
    }
    out
}

impl Clone for Token {
    fn clone(&self) -> (r: Self)
        decreases *self,
    {
        Token { value: self.value.clone(), location: self.location }
    }
}

impl Clone for TokenValue {
    fn clone(&self) -> (r: Self)
        decreases *self,
    {
        match self {
            TokenValue::Ident(s) => TokenValue::Ident(s.clone()),
            TokenValue::Integer(i) => TokenValue::Integer(*i),
            TokenValue::Float(f) => TokenValue::Float(f.clone()),
            TokenValue::Punct(p) => TokenValue::Punct(*p),
            TokenValue::Version(v) => TokenValue::Version(v.clone()),
            TokenValue::Extension(e) => TokenValue::Extension(e.clone()),
            TokenValue::Pragma(p) => TokenValue::Pragma(p.clone()),
        }
    }
}

impl Clone for Version {
    fn clone(&self) -> (r: Self)
        decreases *self,
    {
        Version {
            tokens: clone_tokens(&self.tokens),
            is_first_directive: self.is_first_directive,
            has_comments_before: self.has_comments_before,
        }
    }
}

impl Clone for Extension {
    fn clone(&self) -> (r: Self)
        decreases *self,
    {
        Extension {
            tokens: clone_tokens(&self.tokens),
            has_non_directive_before: self.has_non_directive_before,
        }
    }
}

impl Clone for Pragma {
    fn clone(&self) -> (r: Self)
        decreases *self,
    {
        Pragma { tokens: clone_tokens(&self.tokens) }
    }
}

impl Clone for PreprocessorError {
    fn clone(&self) -> (r: Self)
        decreases *self,
    {
        match self {
            PreprocessorError::IntegerOverflow => PreprocessorError::IntegerOverflow,
            PreprocessorError::FloatParsingError => PreprocessorError::FloatParsingError,
            PreprocessorError::UnexpectedCharacter => PreprocessorError::UnexpectedCharacter,
            PreprocessorError::UnexpectedToken(v) => PreprocessorError::UnexpectedToken(v.clone()),
            PreprocessorError::UnexpectedHash => PreprocessorError::UnexpectedHash,
            PreprocessorError::UnexpectedNewLine => PreprocessorError::UnexpectedNewLine,
            PreprocessorError::UnexpectedEndOfInput => PreprocessorError::UnexpectedEndOfInput,
            PreprocessorError::TooFewDefineArguments => PreprocessorError::TooFewDefineArguments,
            PreprocessorError::TooManyDefineArguments => PreprocessorError::TooManyDefineArguments,
            PreprocessorError::ErrorDirective => PreprocessorError::ErrorDirective,
            PreprocessorError::DuplicateParameter => PreprocessorError::DuplicateParameter,
            PreprocessorError::UnknownDirective => PreprocessorError::UnknownDirective,
            PreprocessorError::DefineRedefined => PreprocessorError::DefineRedefined,
            PreprocessorError::ElifOutsideOfBlock => PreprocessorError::ElifOutsideOfBlock,
            PreprocessorError::ElseOutsideOfBlock => PreprocessorError::ElseOutsideOfBlock,
            PreprocessorError::EndifOutsideOfBlock => PreprocessorError::EndifOutsideOfBlock,
            PreprocessorError::ElifAfterElse => PreprocessorError::ElifAfterElse,
            PreprocessorError::MoreThanOneElse => PreprocessorError::MoreThanOneElse,
            PreprocessorError::UnfinishedBlock => PreprocessorError::UnfinishedBlock,
            PreprocessorError::LineOverflow => PreprocessorError::LineOverflow,
            PreprocessorError::NotSupported16BitLiteral => PreprocessorError::NotSupported16BitLiteral,
            PreprocessorError::NotSupported64BitLiteral => PreprocessorError::NotSupported64BitLiteral,
            PreprocessorError::MacroNotDefined => PreprocessorError::MacroNotDefined,
            PreprocessorError::RecursionLimitReached => PreprocessorError::RecursionLimitReached,
        }
    }
}

} // verus!
