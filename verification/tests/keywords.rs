use seal_lexer::keywords::{match_keyword, same_text};
use seal_lexer::token::TokenType;

#[test]
fn every_reserved_word_is_found() {
    let words = [
        ("break", TokenType::Break),
        ("const", TokenType::Const),
        ("continue", TokenType::Continue),
        ("else", TokenType::Else),
        ("enum", TokenType::Enum),
        ("extern", TokenType::Extern),
        ("fn", TokenType::Function),
        ("for", TokenType::For),
        ("if", TokenType::If),
        ("impl", TokenType::Impl),
        ("impls", TokenType::Impls),
        ("in", TokenType::In),
        ("let", TokenType::Let),
        ("loop", TokenType::Loop),
        ("mod", TokenType::Mod),
        ("new", TokenType::New),
        ("nil", TokenType::Nil),
        ("return", TokenType::Return),
        ("throw", TokenType::Throw),
        ("trait", TokenType::Trait),
        ("type", TokenType::Type),
        ("use", TokenType::Use),
        ("while", TokenType::While),
    ];
    for (text, kind) in words {
        assert_eq!(match_keyword(text), Some(kind));
    }
}

#[test]
fn lookup_is_exact_and_case_sensitive() {
    assert_eq!(match_keyword(""), None);
    assert_eq!(match_keyword("i"), None);
    assert_eq!(match_keyword("If"), None);
    assert_eq!(match_keyword("IF"), None);
    assert_eq!(match_keyword("iff"), None);
    assert_eq!(match_keyword(" if"), None);
    assert_eq!(match_keyword("integer"), None);
    assert_eq!(match_keyword("function"), None);
    assert_eq!(match_keyword("implss"), None);
}

#[test]
fn same_text_compares_characters() {
    assert!(same_text("", ""));
    assert!(same_text("abc", "abc"));
    assert!(same_text("h\u{e9}", "h\u{e9}"));
    assert!(!same_text("abc", "abd"));
    assert!(!same_text("abc", "ab"));
    assert!(!same_text("", "a"));
    assert!(!same_text("h\u{e9}", "he"));
}
