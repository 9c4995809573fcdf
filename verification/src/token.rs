//! The data that every stage of the lexer hands on: token categories, source
//! positions, tokens and lexical errors, together with their mathematical views.

use vstd::prelude::*;

verus! {

/// The closed set of categories a token can have.
#[derive(Copy, Clone, Debug, PartialEq, Eq, PartialOrd, Ord, Hash, Structural)]
pub enum TokenType {
    Identifier,
    Whitespace,
    NewLine,
    Comment,
    DocComment,
    ModuleDocComment,
    IntLiteral,
    HexLiteral,
    OctLiteral,
    BinLiteral,
    FloatLiteral,
    StringLiteral,
    CharLiteral,
    Label,
    Break,
    Const,
    Continue,
    Else,
    Enum,
    Extern,
    Function,
    For,
    If,
    Impl,
    Impls,
    In,
    Let,
    Loop,
    Mod,
    New,
    Nil,
    Return,
    Throw,
    Trait,
    Type,
    Use,
    While,
    OpenCurly,
    CloseCurly,
    OpenParen,
    CloseParen,
    OpenBracket,
    CloseBracket,
    Semicolon,
    Colon,
    Comma,
    Question,
    Dot,
    RangeExclusive,
    RangeInclusive,
    Equal,
    NotEqual,
    LessThan,
    LessOrEqual,
    GreaterThan,
    GreaterOrEqual,
    Not,
    Tilde,
    At,
    LogicalAnd,
    LogicalOr,
    LogicalAndAssign,
    LogicalOrAssign,
    Add,
    Sub,
    Mul,
    Div,
    Rem,
    DivRem,
    BitAnd,
    BitOr,
    BitXor,
    Shl,
    Shr,
    LShr,
    Assign,
    AddAssign,
    SubAssign,
    MulAssign,
    DivAssign,
    RemAssign,
    ModAssign,
    BitAndAssign,
    BitOrAssign,
    BitXorAssign,
    ShlAssign,
    ShrAssign,
    LShrAssign,
}

/// A place in the source text: 1-based line and column, 0-based byte offset.
#[derive(Copy, Clone, Debug, PartialEq, Eq, Structural)]
pub struct Location {
    pub line: usize,
    pub column: usize,
    pub index: usize,
}

impl Default for Location {
    fn default() -> (r: Location)
        ensures
            r == (Location { line: 0, column: 0, index: 0 }),
    {
        Location { line: 0, column: 0, index: 0 }
    }
}

/// The one kind of error this layer knows: a character no token can start with,
/// and where it stood.
#[derive(Copy, Clone, Debug)]
pub enum LexicalError {
    Unexpected(char, Location),
}

/// A classified piece of the source text.
#[derive(Debug, PartialEq, Eq, Hash)]
pub struct Token<'input> {
    pub kind: TokenType,
    pub span: &'input str,
}

pub type Spanned<Tok, Loc, Error> = Result<(Loc, Tok, Loc), Error>;

pub type Tok<'input> = (TokenType, &'input str);

/// What every stage yields on one pull.
pub type Item<'input> = Spanned<Tok<'input>, Location, LexicalError>;

/// The mathematical content of an [`Item`]: the token's text as a sequence of
/// characters rather than a borrowed slice.
pub ghost enum Lexeme {
    Token { start: Location, kind: TokenType, text: Seq<char>, end: Location },
    Unexpected { found: char, at: Location },
}

impl Lexeme {
    /// The characters of the source that this lexeme covers.
    pub open spec fn chars(self) -> Seq<char> {
        match self {
            Lexeme::Token { text, .. } => text,
            Lexeme::Unexpected { found, .. } => seq![found],
        }
    }

    /// Where the lexeme begins.
    pub open spec fn start(self) -> Location {
        match self {
            Lexeme::Token { start, .. } => start,
            Lexeme::Unexpected { at, .. } => at,
        }
    }

    /// The category, for a token; nothing for an error.
    pub open spec fn kind(self) -> Option<TokenType> {
        match self {
            Lexeme::Token { kind, .. } => Some(kind),
            Lexeme::Unexpected { .. } => None,
        }
    }
}

/// The lexeme an item stands for.
pub open spec fn item_view(item: Item) -> Lexeme {
    match item {
        Ok((start, (kind, span), end)) => Lexeme::Token { start, kind, text: span@, end },
        Err(LexicalError::Unexpected(found, at)) => Lexeme::Unexpected { found, at },
    }
}

} // verus!
