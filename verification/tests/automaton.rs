use seal_lexer::dfa::Dfa;
use seal_lexer::scanner::InnerLexer;
use seal_lexer::grammar::{symbol_entry, SYMBOL_COUNT};
use seal_lexer::seal_dfa::create_dfa;
use seal_lexer::token::TokenType;

fn run(dfa: &Dfa, text: &str) -> Option<usize> {
    let mut node = dfa.root();
    for c in text.chars() {
        node = dfa.next(node, &c)?;
    }
    Some(node)
}

fn accepted(dfa: &Dfa, text: &str) -> Option<TokenType> {
    run(dfa, text).and_then(|node| dfa.state(node))
}

fn single(dfa: &Dfa, text: &str) -> Option<TokenType> {
    let mut scanner = InnerLexer::new(dfa, text);
    match scanner.next() {
        Some(Ok((_, (kind, span), _))) if span == text => Some(kind),
        _ => None,
    }
}

#[test]
fn new_automaton_has_a_bare_root() {
    let dfa = Dfa::new();
    assert_eq!(dfa.len(), 1);
    assert_eq!(dfa.root(), 0);
    assert_eq!(dfa.state(0), None);
    assert_eq!(dfa.next(0, &'a'), None);
}

#[test]
fn first_covering_edge_decides() {
    let mut dfa = Dfa::new();
    let low = dfa.add_state(Some(TokenType::Add));
    let high = dfa.add_state(Some(TokenType::Sub));
    assert_eq!((low, high), (1, 2));
    assert_eq!(dfa.len(), 3);
    dfa.add_edge(0, 'c', 'f', low);
    dfa.add_edge(0, 'a', 'z', high);
    assert_eq!(dfa.next(0, &'b'), Some(high));
    assert_eq!(dfa.next(0, &'c'), Some(low));
    assert_eq!(dfa.next(0, &'f'), Some(low));
    assert_eq!(dfa.next(0, &'g'), Some(high));
    assert_eq!(dfa.next(0, &'A'), None);
    assert_eq!(dfa.next(low, &'c'), None);
    assert_eq!(dfa.state(low), Some(TokenType::Add));
    assert_eq!(dfa.state(high), Some(TokenType::Sub));
}

#[test]
fn set_accept_changes_one_state() {
    let mut dfa = Dfa::new();
    let q = dfa.add_state(None);
    dfa.add_edge(0, 'x', 'x', q);
    dfa.set_accept(q, Some(TokenType::Comma));
    assert_eq!(dfa.state(q), Some(TokenType::Comma));
    assert_eq!(dfa.state(0), None);
    assert_eq!(dfa.next(0, &'x'), Some(q));
    dfa.set_accept(q, None);
    assert_eq!(dfa.state(q), None);
}

#[test]
fn add_literal_shares_prefixes_and_keeps_earlier_marks() {
    let mut dfa = Dfa::new();
    let gt = dfa.add_literal(">", TokenType::GreaterThan);
    let shr = dfa.add_literal(">>", TokenType::Shr);
    let ge = dfa.add_literal(">=", TokenType::GreaterOrEqual);
    assert_eq!(dfa.len(), 4);
    assert_eq!(run(&dfa, ">"), Some(gt));
    assert_eq!(run(&dfa, ">>"), Some(shr));
    assert_eq!(run(&dfa, ">="), Some(ge));
    assert_eq!(accepted(&dfa, ">"), Some(TokenType::GreaterThan));
    assert_eq!(accepted(&dfa, ">>"), Some(TokenType::Shr));
    assert_eq!(accepted(&dfa, ">="), Some(TokenType::GreaterOrEqual));
    let again = dfa.add_literal(">>", TokenType::Shl);
    assert_eq!(again, shr);
    assert_eq!(dfa.len(), 4);
    assert_eq!(accepted(&dfa, ">>"), Some(TokenType::Shr));
    let long = dfa.add_literal(">>>=", TokenType::LShrAssign);
    assert_eq!(dfa.len(), 6);
    assert_eq!(run(&dfa, ">>>="), Some(long));
    assert_eq!(accepted(&dfa, ">>>"), None);
    assert_eq!(accepted(&dfa, ">>>="), Some(TokenType::LShrAssign));
}

#[test]
fn add_literal_of_nothing_marks_the_root() {
    let mut dfa = Dfa::new();
    let q = dfa.add_literal("", TokenType::Comma);
    assert_eq!(q, 0);
    assert_eq!(dfa.state(0), Some(TokenType::Comma));
}

#[test]
fn every_symbol_of_the_table_is_accepted_with_its_category() {
    let dfa = create_dfa();
    for i in 0..SYMBOL_COUNT {
        let (text, kind) = symbol_entry(i);
        assert_eq!(accepted(&dfa, text), Some(kind), "{}", text);
        assert_eq!(single(&dfa, text), Some(kind), "{}", text);
    }
}

#[test]
fn table_holds_the_expected_symbols() {
    assert_eq!(SYMBOL_COUNT, 53);
    assert_eq!(symbol_entry(0), ("{", TokenType::OpenCurly));
    assert_eq!(symbol_entry(10), (".", TokenType::Dot));
    assert_eq!(symbol_entry(12), ("...", TokenType::RangeInclusive));
    assert_eq!(symbol_entry(26), ("+", TokenType::Add));
    assert_eq!(symbol_entry(31), ("/%", TokenType::DivRem));
    assert_eq!(symbol_entry(49), (">>>=", TokenType::LShrAssign));
    assert_eq!(symbol_entry(50), ("//", TokenType::Comment));
    assert_eq!(symbol_entry(51), ("///", TokenType::DocComment));
    assert_eq!(symbol_entry(52), ("//!", TokenType::ModuleDocComment));
}

#[test]
fn language_tokens_are_classified() {
    let dfa = create_dfa();
    let cases = [
        ("x", TokenType::Identifier),
        ("_x9", TokenType::Identifier),
        ("snake_case", TokenType::Identifier),
        ("\u{1f600}", TokenType::Identifier),
        (" \t", TokenType::Whitespace),
        ("\n", TokenType::NewLine),
        ("// plain", TokenType::Comment),
        ("//", TokenType::Comment),
        ("/// doc", TokenType::DocComment),
        ("//! module", TokenType::ModuleDocComment),
        ("0", TokenType::IntLiteral),
        ("1_000", TokenType::IntLiteral),
        ("0x1F", TokenType::HexLiteral),
        ("0o17", TokenType::OctLiteral),
        ("0b1_01", TokenType::BinLiteral),
        ("3.25", TokenType::FloatLiteral),
        ("1e9", TokenType::FloatLiteral),
        ("2.5E-3", TokenType::FloatLiteral),
        ("\"\"", TokenType::StringLiteral),
        ("\"a \\\" b\"", TokenType::StringLiteral),
        ("'a'", TokenType::CharLiteral),
        ("'\\n'", TokenType::CharLiteral),
        ("'\\''", TokenType::CharLiteral),
        ("'1'", TokenType::CharLiteral),
        ("'outer", TokenType::Label),
        ("'a", TokenType::Label),
        ("mod=", TokenType::ModAssign),
    ];
    for (text, kind) in cases {
        assert_eq!(single(&dfa, text), Some(kind), "{:?}", text);
    }
}

#[test]
fn comment_ends_before_the_line_feed() {
    let dfa = create_dfa();
    let mut scanner = InnerLexer::new(&dfa, "// a\nb");
    match scanner.next() {
        Some(Ok((_, (kind, span), end))) => {
            assert_eq!(kind, TokenType::Comment);
            assert_eq!(span, "// a");
            assert_eq!(end.index, 4);
        }
        _ => panic!("a comment"),
    }
}

#[test]
fn unfinished_tokens_are_not_accepted() {
    let dfa = create_dfa();
    for text in [
        "", "#", "$", "`", "\\", "0x", "0o", "0b", "0xg", "0o8", "0b2", "1.", "1e", "1e+", "1._",
        "'", "''", "'ab'", "'\\", "'\\n", "\"", "\"abc", "\"a\\\"", "a b", "a-b", "mod =",
        "//\n", "// a\n", "\u{e9}", "9a",
    ] {
        assert_eq!(accepted(&dfa, text), None, "{:?}", text);
    }
}
