//! The tokens of the Seal language, each kind by what its text looks like.
//!
//! - Symbols have a fixed spelling: the punctuation, the operators and the
//!   marks that open a comment, listed in the table [`symbols`]; and `mod=`.
//! - A comment runs from `//` to the end of the line; `///` opens a
//!   documentation comment and `//!` a module documentation comment.
//! - Whitespace is a run of spaces, tabs, carriage returns and line feeds.
//! - An identifier is a letter, an underscore or a pictograph, then any number
//!   of these and digits. Reserved words are told apart after the scan.
//! - Numbers are decimal, `0x` hexadecimal, `0o` octal and `0b` binary
//!   integers, with `_` between digits, decimal fractions, and either of the
//!   decimal forms with an exponent.
//! - String literals stand between double quotes and character literals
//!   between single quotes, with `\` taking the next character along.
//! - A label is a single quote and an identifier.

use crate::token::TokenType;
use vstd::prelude::*;

verus! {

/// How many entries the table of symbols holds.
pub const SYMBOL_COUNT: usize = 53;

/// Entry `i` of the table of symbols, the tokens with a fixed spelling: the
/// punctuation, the operators, and the marks that open a comment, each with
/// its category.
pub open spec fn symbols(i: int) -> (Seq<char>, TokenType) {
    if i == 0 {
        ("{"@, TokenType::OpenCurly)
    } else if i == 1 {
        ("}"@, TokenType::CloseCurly)
    } else if i == 2 {
        ("("@, TokenType::OpenParen)
    } else if i == 3 {
        (")"@, TokenType::CloseParen)
    } else if i == 4 {
        ("["@, TokenType::OpenBracket)
    } else if i == 5 {
        ("]"@, TokenType::CloseBracket)
    } else if i == 6 {
        (";"@, TokenType::Semicolon)
    } else if i == 7 {
        (":"@, TokenType::Colon)
    } else if i == 8 {
        (","@, TokenType::Comma)
    } else if i == 9 {
        ("?"@, TokenType::Question)
    } else if i == 10 {
        ("."@, TokenType::Dot)
    } else if i == 11 {
        (".."@, TokenType::RangeExclusive)
    } else if i == 12 {
        ("..."@, TokenType::RangeInclusive)
    } else if i == 13 {
        ("=="@, TokenType::Equal)
    } else if i == 14 {
        ("!="@, TokenType::NotEqual)
    } else if i == 15 {
        ("<"@, TokenType::LessThan)
    } else if i == 16 {
        ("<="@, TokenType::LessOrEqual)
    } else if i == 17 {
        (">"@, TokenType::GreaterThan)
    } else if i == 18 {
        (">="@, TokenType::GreaterOrEqual)
    } else if i == 19 {
        ("!"@, TokenType::Not)
    } else if i == 20 {
        ("~"@, TokenType::Tilde)
    } else if i == 21 {
        ("@"@, TokenType::At)
    } else if i == 22 {
        ("&&"@, TokenType::LogicalAnd)
    } else if i == 23 {
        ("||"@, TokenType::LogicalOr)
    } else if i == 24 {
        ("&&="@, TokenType::LogicalAndAssign)
    } else if i == 25 {
        ("||="@, TokenType::LogicalOrAssign)
    } else if i == 26 {
        ("+"@, TokenType::Add)
    } else if i == 27 {
        ("-"@, TokenType::Sub)
    } else if i == 28 {
        ("*"@, TokenType::Mul)
    } else if i == 29 {
        ("/"@, TokenType::Div)
    } else if i == 30 {
        ("%"@, TokenType::Rem)
    } else if i == 31 {
        ("/%"@, TokenType::DivRem)
    } else if i == 32 {
        ("&"@, TokenType::BitAnd)
    } else if i == 33 {
        ("|"@, TokenType::BitOr)
    } else if i == 34 {
        ("^"@, TokenType::BitXor)
    } else if i == 35 {
        ("<<"@, TokenType::Shl)
    } else if i == 36 {
        (">>"@, TokenType::Shr)
    } else if i == 37 {
        (">>>"@, TokenType::LShr)
    } else if i == 38 {
        ("="@, TokenType::Assign)
    } else if i == 39 {
        ("+="@, TokenType::AddAssign)
    } else if i == 40 {
        ("-="@, TokenType::SubAssign)
    } else if i == 41 {
        ("*="@, TokenType::MulAssign)
    } else if i == 42 {
        ("/="@, TokenType::DivAssign)
    } else if i == 43 {
        ("%="@, TokenType::RemAssign)
    } else if i == 44 {
        ("&="@, TokenType::BitAndAssign)
    } else if i == 45 {
        ("|="@, TokenType::BitOrAssign)
    } else if i == 46 {
        ("^="@, TokenType::BitXorAssign)
    } else if i == 47 {
        ("<<="@, TokenType::ShlAssign)
    } else if i == 48 {
        (">>="@, TokenType::ShrAssign)
    } else if i == 49 {
        (">>>="@, TokenType::LShrAssign)
    } else if i == 50 {
        ("//"@, TokenType::Comment)
    } else if i == 51 {
        ("///"@, TokenType::DocComment)
    } else {
        ("//!"@, TokenType::ModuleDocComment)
    }
}

/// Entry `i` of the table of symbols.
pub fn symbol_entry(i: usize) -> (r: (&'static str, TokenType))
    requires
        i < SYMBOL_COUNT,
    ensures
        r.0@ == symbols(i as int).0,
        r.1 == symbols(i as int).1,
{
    if i == 0 {
        ("{", TokenType::OpenCurly)
    } else if i == 1 {
        ("}", TokenType::CloseCurly)
    } else if i == 2 {
        ("(", TokenType::OpenParen)
    } else if i == 3 {
        (")", TokenType::CloseParen)
    } else if i == 4 {
        ("[", TokenType::OpenBracket)
    } else if i == 5 {
        ("]", TokenType::CloseBracket)
    } else if i == 6 {
        (";", TokenType::Semicolon)
    } else if i == 7 {
        (":", TokenType::Colon)
    } else if i == 8 {
        (",", TokenType::Comma)
    } else if i == 9 {
        ("?", TokenType::Question)
    } else if i == 10 {
        (".", TokenType::Dot)
    } else if i == 11 {
        ("..", TokenType::RangeExclusive)
    } else if i == 12 {
        ("...", TokenType::RangeInclusive)
    } else if i == 13 {
        ("==", TokenType::Equal)
    } else if i == 14 {
        ("!=", TokenType::NotEqual)
    } else if i == 15 {
        ("<", TokenType::LessThan)
    } else if i == 16 {
        ("<=", TokenType::LessOrEqual)
    } else if i == 17 {
        (">", TokenType::GreaterThan)
    } else if i == 18 {
        (">=", TokenType::GreaterOrEqual)
    } else if i == 19 {
        ("!", TokenType::Not)
    } else if i == 20 {
        ("~", TokenType::Tilde)
    } else if i == 21 {
        ("@", TokenType::At)
    } else if i == 22 {
        ("&&", TokenType::LogicalAnd)
    } else if i == 23 {
        ("||", TokenType::LogicalOr)
    } else if i == 24 {
        ("&&=", TokenType::LogicalAndAssign)
    } else if i == 25 {
        ("||=", TokenType::LogicalOrAssign)
    } else if i == 26 {
        ("+", TokenType::Add)
    } else if i == 27 {
        ("-", TokenType::Sub)
    } else if i == 28 {
        ("*", TokenType::Mul)
    } else if i == 29 {
        ("/", TokenType::Div)
    } else if i == 30 {
        ("%", TokenType::Rem)
    } else if i == 31 {
        ("/%", TokenType::DivRem)
    } else if i == 32 {
        ("&", TokenType::BitAnd)
    } else if i == 33 {
        ("|", TokenType::BitOr)
    } else if i == 34 {
        ("^", TokenType::BitXor)
    } else if i == 35 {
        ("<<", TokenType::Shl)
    } else if i == 36 {
        (">>", TokenType::Shr)
    } else if i == 37 {
        (">>>", TokenType::LShr)
    } else if i == 38 {
        ("=", TokenType::Assign)
    } else if i == 39 {
        ("+=", TokenType::AddAssign)
    } else if i == 40 {
        ("-=", TokenType::SubAssign)
    } else if i == 41 {
        ("*=", TokenType::MulAssign)
    } else if i == 42 {
        ("/=", TokenType::DivAssign)
    } else if i == 43 {
        ("%=", TokenType::RemAssign)
    } else if i == 44 {
        ("&=", TokenType::BitAndAssign)
    } else if i == 45 {
        ("|=", TokenType::BitOrAssign)
    } else if i == 46 {
        ("^=", TokenType::BitXorAssign)
    } else if i == 47 {
        ("<<=", TokenType::ShlAssign)
    } else if i == 48 {
        (">>=", TokenType::ShrAssign)
    } else if i == 49 {
        (">>>=", TokenType::LShrAssign)
    } else if i == 50 {
        ("//", TokenType::Comment)
    } else if i == 51 {
        ("///", TokenType::DocComment)
    } else {
        ("//!", TokenType::ModuleDocComment)
    }
}

/// The length of a text and its first four characters, by which the symbols
/// of the table are told apart.
spec fn shape(text: Seq<char>) -> (nat, char, char, char, char) {
    (text.len(), text[0], text[1], text[2], text[3])
}

/// The symbols of the table are not empty, and no two entries hold the same
/// symbol.
pub proof fn lemma_symbols_distinct(i: int, j: int)
    requires
        0 <= i < SYMBOL_COUNT,
        0 <= j < SYMBOL_COUNT,
    ensures
        symbols(i).0.len() >= 1,
        i != j ==> symbols(i).0 != symbols(j).0,
{
    reveal_strlit("{");
    reveal_strlit("}");
    reveal_strlit("(");
    reveal_strlit(")");
    reveal_strlit("[");
    reveal_strlit("]");
    reveal_strlit(";");
    reveal_strlit(":");
    reveal_strlit(",");
    reveal_strlit("?");
    reveal_strlit(".");
    reveal_strlit("..");
    reveal_strlit("...");
    reveal_strlit("==");
    reveal_strlit("!=");
    reveal_strlit("<");
    reveal_strlit("<=");
    reveal_strlit(">");
    reveal_strlit(">=");
    reveal_strlit("!");
    reveal_strlit("~");
    reveal_strlit("@");
    reveal_strlit("&&");
    reveal_strlit("||");
    reveal_strlit("&&=");
    reveal_strlit("||=");
    reveal_strlit("+");
    reveal_strlit("-");
    reveal_strlit("*");
    reveal_strlit("/");
    reveal_strlit("%");
    reveal_strlit("/%");
    reveal_strlit("&");
    reveal_strlit("|");
    reveal_strlit("^");
    reveal_strlit("<<");
    reveal_strlit(">>");
    reveal_strlit(">>>");
    reveal_strlit("=");
    reveal_strlit("+=");
    reveal_strlit("-=");
    reveal_strlit("*=");
    reveal_strlit("/=");
    reveal_strlit("%=");
    reveal_strlit("&=");
    reveal_strlit("|=");
    reveal_strlit("^=");
    reveal_strlit("<<=");
    reveal_strlit(">>=");
    reveal_strlit(">>>=");
    reveal_strlit("//");
    reveal_strlit("///");
    reveal_strlit("//!");
    assert(shape(symbols(i).0).0 >= 1);
    assert(i != j ==> shape(symbols(i).0) != shape(symbols(j).0));
}

/// What the scan of the table shows of entry `j`: its symbol has between one
/// and four characters and begins with a symbol character, and if it begins
/// with two slashes it is one of the three marks that open a comment.
pub proof fn lemma_symbol_facts(j: int)
    requires
        0 <= j < SYMBOL_COUNT,
    ensures
        1 <= symbols(j).0.len() <= 4,
        is_symbol_char(symbols(j).0[0]),
        symbols(j).0.len() >= 2 && symbols(j).0[0] == '/' && symbols(j).0[1] == '/' ==> {
            ||| symbols(j).0.len() == 2
            ||| symbols(j).0.len() == 3 && symbols(j).0[2] == '/'
            ||| symbols(j).0.len() == 3 && symbols(j).0[2] == '!'
        },
{
    reveal_strlit("{");
    reveal_strlit("}");
    reveal_strlit("(");
    reveal_strlit(")");
    reveal_strlit("[");
    reveal_strlit("]");
    reveal_strlit(";");
    reveal_strlit(":");
    reveal_strlit(",");
    reveal_strlit("?");
    reveal_strlit(".");
    reveal_strlit("..");
    reveal_strlit("...");
    reveal_strlit("==");
    reveal_strlit("!=");
    reveal_strlit("<");
    reveal_strlit("<=");
    reveal_strlit(">");
    reveal_strlit(">=");
    reveal_strlit("!");
    reveal_strlit("~");
    reveal_strlit("@");
    reveal_strlit("&&");
    reveal_strlit("||");
    reveal_strlit("&&=");
    reveal_strlit("||=");
    reveal_strlit("+");
    reveal_strlit("-");
    reveal_strlit("*");
    reveal_strlit("/");
    reveal_strlit("%");
    reveal_strlit("/%");
    reveal_strlit("&");
    reveal_strlit("|");
    reveal_strlit("^");
    reveal_strlit("<<");
    reveal_strlit(">>");
    reveal_strlit(">>>");
    reveal_strlit("=");
    reveal_strlit("+=");
    reveal_strlit("-=");
    reveal_strlit("*=");
    reveal_strlit("/=");
    reveal_strlit("%=");
    reveal_strlit("&=");
    reveal_strlit("|=");
    reveal_strlit("^=");
    reveal_strlit("<<=");
    reveal_strlit(">>=");
    reveal_strlit(">>>=");
    reveal_strlit("//");
    reveal_strlit("///");
    reveal_strlit("//!");
    let s = shape(symbols(j).0);
    assert(1 <= s.0 <= 4);
    assert(is_symbol_char(s.1));
    assert(s.0 >= 2 && s.1 == '/' && s.2 == '/' ==> s.0 == 2 || (s.0 == 3 && (s.3 == '/' || s.3
        == '!')));
}

/// The three marks that open a comment, as the table holds them.
pub proof fn lemma_comment_marks()
    ensures
        symbols(50) == (seq!['/', '/'], TokenType::Comment),
        symbols(51) == (seq!['/', '/', '/'], TokenType::DocComment),
        symbols(52) == (seq!['/', '/', '!'], TokenType::ModuleDocComment),
{
    reveal_strlit("//");
    reveal_strlit("///");
    reveal_strlit("//!");
    assert("//"@ =~= seq!['/', '/']);
    assert("///"@ =~= seq!['/', '/', '/']);
    assert("//!"@ =~= seq!['/', '/', '!']);
}

/// Whether some symbol of the table begins with `c`.
pub open spec fn starts_symbol(c: char) -> bool {
    exists|j: int|
        0 <= j < SYMBOL_COUNT && (#[trigger] symbols(j)).0.len() >= 1 && symbols(
            j,
        ).0[0] == c
}

/// Whether `c` is one of the characters that the symbols of the table are
/// made of.
pub open spec fn is_symbol_char(c: char) -> bool {
    ||| c == '{' || c == '}' || c == '(' || c == ')' || c == '[' || c == ']'
    ||| c == ';' || c == ':' || c == ',' || c == '?' || c == '.' || c == '='
    ||| c == '!' || c == '<' || c == '>' || c == '~' || c == '@' || c == '&'
    ||| c == '|' || c == '+' || c == '-' || c == '*' || c == '/' || c == '%'
    ||| c == '^'
}

/// The symbols of the table begin with symbol characters.
pub proof fn lemma_symbols_start_with_symbol_chars(c: char)
    requires
        starts_symbol(c),
    ensures
        is_symbol_char(c),
{
    let j = choose|j: int|
        0 <= j < SYMBOL_COUNT && (#[trigger] symbols(j)).0.len() >= 1 && symbols(
            j,
        ).0[0] == c;
    lemma_symbol_facts(j);
}

/// Whether `c` is a whitespace character.
pub open spec fn is_blank_char(c: char) -> bool {
    c == ' ' || c == '\t' || c == '\n' || c == '\r'
}

/// Whether `c` is a decimal digit.
pub open spec fn is_digit(c: char) -> bool {
    '0' <= c <= '9'
}

/// Whether an identifier may begin with `c`: a letter, an underscore or a
/// pictograph.
pub open spec fn is_identifier_start(c: char) -> bool {
    ||| 'a' <= c <= 'z'
    ||| 'A' <= c <= 'Z'
    ||| c == '_'
    ||| '\u{2600}' <= c <= '\u{27bf}'
    ||| '\u{1f300}' <= c <= '\u{1faff}'
}

/// Whether an identifier may go on with `c`.
pub open spec fn is_identifier_char(c: char) -> bool {
    is_identifier_start(c) || is_digit(c)
}

/// Whether `c` is a hexadecimal digit.
pub open spec fn is_hex_digit(c: char) -> bool {
    is_digit(c) || 'a' <= c <= 'f' || 'A' <= c <= 'F'
}

/// Whether `c` is an octal digit.
pub open spec fn is_octal_digit(c: char) -> bool {
    '0' <= c <= '7'
}

/// Whether `c` is a binary digit.
pub open spec fn is_binary_digit(c: char) -> bool {
    c == '0' || c == '1'
}

/// Whether `text` is a comment: two slashes and the rest of the line.
pub open spec fn is_line_comment(text: Seq<char>) -> bool {
    &&& text.len() >= 2
    &&& text[0] == '/'
    &&& text[1] == '/'
    &&& forall|i: int| 2 <= i < text.len() ==> #[trigger] text[i] != '\n'
}

/// The category of a comment: documentation after a third slash, module
/// documentation after an exclamation mark, plain otherwise.
pub open spec fn comment_kind(text: Seq<char>) -> TokenType {
    if text.len() >= 3 && text[2] == '/' {
        TokenType::DocComment
    } else if text.len() >= 3 && text[2] == '!' {
        TokenType::ModuleDocComment
    } else {
        TokenType::Comment
    }
}

/// Whether `text` is whitespace: one or more whitespace characters.
pub open spec fn is_blank(text: Seq<char>) -> bool {
    &&& text.len() >= 1
    &&& forall|i: int| 0 <= i < text.len() ==> is_blank_char(#[trigger] text[i])
}

/// Whether `text` is an identifier: a character an identifier may begin
/// with, then any number of characters it may go on with.
pub open spec fn is_identifier(text: Seq<char>) -> bool {
    &&& text.len() >= 1
    &&& is_identifier_start(text[0])
    &&& forall|i: int| 1 <= i < text.len() ==> is_identifier_char(#[trigger] text[i])
}

/// Whether `text` is a decimal integer: a digit, then digits and
/// underscores.
pub open spec fn is_decimal(text: Seq<char>) -> bool {
    &&& text.len() >= 1
    &&& is_digit(text[0])
    &&& forall|i: int| 1 <= i < text.len() ==> is_digit(#[trigger] text[i]) || text[i] == '_'
}

/// Whether `text` is a decimal fraction: a decimal integer of `whole`
/// characters, a point, a digit, then digits and underscores.
pub open spec fn is_fraction(text: Seq<char>, whole: int) -> bool {
    &&& 1 <= whole
    &&& whole + 2 <= text.len()
    &&& is_decimal(text.take(whole))
    &&& text[whole] == '.'
    &&& is_digit(text[whole + 1])
    &&& forall|i: int|
        whole + 2 <= i < text.len() ==> is_digit(#[trigger] text[i]) || text[i] == '_'
}

/// Whether `text` is a number with an exponent: a decimal integer or
/// fraction of `mantissa` characters, the letter `e` in either case, an
/// optional sign, and one or more digits.
pub open spec fn is_scientific(text: Seq<char>, mantissa: int) -> bool {
    &&& 1 <= mantissa < text.len()
    &&& is_decimal(text.take(mantissa)) || exists|whole: int|
        is_fraction(text.take(mantissa), whole)
    &&& text[mantissa] == 'e' || text[mantissa] == 'E'
    &&& {
        let digits = if text[mantissa + 1] == '+' || text[mantissa + 1] == '-' {
            mantissa + 2
        } else {
            mantissa + 1
        };
        &&& digits < text.len()
        &&& forall|i: int| digits <= i < text.len() ==> is_digit(#[trigger] text[i])
    }
}

/// Whether `text` is a hexadecimal integer: `0x`, a hexadecimal digit, then
/// hexadecimal digits and underscores.
pub open spec fn is_hexadecimal(text: Seq<char>) -> bool {
    &&& text.len() >= 3
    &&& text[0] == '0'
    &&& text[1] == 'x'
    &&& is_hex_digit(text[2])
    &&& forall|i: int| 3 <= i < text.len() ==> is_hex_digit(#[trigger] text[i]) || text[i] == '_'
}

/// Whether `text` is an octal integer: `0o`, an octal digit, then octal
/// digits and underscores.
pub open spec fn is_octal(text: Seq<char>) -> bool {
    &&& text.len() >= 3
    &&& text[0] == '0'
    &&& text[1] == 'o'
    &&& is_octal_digit(text[2])
    &&& forall|i: int|
        3 <= i < text.len() ==> is_octal_digit(#[trigger] text[i]) || text[i] == '_'
}

/// Whether `text` is a binary integer: `0b`, a binary digit, then binary
/// digits and underscores.
pub open spec fn is_binary(text: Seq<char>) -> bool {
    &&& text.len() >= 3
    &&& text[0] == '0'
    &&& text[1] == 'b'
    &&& is_binary_digit(text[2])
    &&& forall|i: int|
        3 <= i < text.len() ==> is_binary_digit(#[trigger] text[i]) || text[i] == '_'
}

/// Whether, from character `i` on, `text` is the inside of a string literal
/// and the quote that closes it: a backslash takes the next character along,
/// and the first quote not taken along is the last character.
pub open spec fn closes_string(text: Seq<char>, i: int) -> bool
    decreases text.len() - i,
{
    if i < 0 || i >= text.len() {
        false
    } else if text[i] == '"' {
        i == text.len() - 1
    } else if text[i] == '\\' {
        i + 1 < text.len() && closes_string(text, i + 2)
    } else {
        closes_string(text, i + 1)
    }
}

/// Whether `text` is a string literal.
pub open spec fn is_string(text: Seq<char>) -> bool {
    text.len() >= 2 && text[0] == '"' && closes_string(text, 1)
}

/// Whether `text` is a character literal: between single quotes, one
/// character that is neither a backslash nor a single quote, or a backslash
/// and one character.
pub open spec fn is_char_literal(text: Seq<char>) -> bool {
    ||| text.len() == 3 && text[0] == '\'' && text[1] != '\\' && text[1] != '\'' && text[2] == '\''
    ||| text.len() == 4 && text[0] == '\'' && text[1] == '\\' && text[3] == '\''
}

/// Whether `text` is a label: a single quote and an identifier.
pub open spec fn is_label(text: Seq<char>) -> bool {
    &&& text.len() >= 2
    &&& text[0] == '\''
    &&& is_identifier_start(text[1])
    &&& forall|i: int| 2 <= i < text.len() ==> is_identifier_char(#[trigger] text[i])
}

/// Whether `text` is a token of the language, of category `kind`.
pub open spec fn is_token(text: Seq<char>, kind: TokenType) -> bool {
    ||| exists|j: int| 0 <= j < SYMBOL_COUNT && #[trigger] symbols(j) == (text, kind)
    ||| text == seq!['m', 'o', 'd', '='] && kind == TokenType::ModAssign
    ||| is_line_comment(text) && kind == comment_kind(text)
    ||| is_blank(text) && kind == TokenType::Whitespace
    ||| is_identifier(text) && kind == TokenType::Identifier
    ||| is_decimal(text) && kind == TokenType::IntLiteral
    ||| is_hexadecimal(text) && kind == TokenType::HexLiteral
    ||| is_octal(text) && kind == TokenType::OctLiteral
    ||| is_binary(text) && kind == TokenType::BinLiteral
    ||| (exists|whole: int| is_fraction(text, whole)) && kind == TokenType::FloatLiteral
    ||| (exists|mantissa: int| is_scientific(text, mantissa)) && kind == TokenType::FloatLiteral
    ||| is_string(text) && kind == TokenType::StringLiteral
    ||| is_char_literal(text) && kind == TokenType::CharLiteral
    ||| is_label(text) && kind == TokenType::Label
}

} // verus!
