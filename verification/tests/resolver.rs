use seal_lexer::dfa::Dfa;
use seal_lexer::lexer::Lexer;
use seal_lexer::seal_dfa::create_dfa;
use seal_lexer::token::{LexicalError, Location, TokenType};

fn lex(dfa: &Dfa, input: &str) -> Vec<Result<(Location, TokenType, String, Location), (char, Location)>> {
    let mut lexer = Lexer::new(dfa, input);
    let mut out = Vec::new();
    while let Some(item) = lexer.next() {
        out.push(match item {
            Ok((start, (kind, text), end)) => Ok((start, kind, text.to_string(), end)),
            Err(LexicalError::Unexpected(c, at)) => Err((c, at)),
        });
    }
    assert!(lexer.next().is_none());
    out
}

fn kinds(input: &str) -> Vec<(TokenType, String)> {
    let dfa = create_dfa();
    lex(&dfa, input)
        .into_iter()
        .map(|item| {
            let (_, kind, text, _) = item.expect("no lexical error");
            (kind, text)
        })
        .collect()
}

fn tok(kind: TokenType, text: &str) -> (TokenType, String) {
    (kind, text.to_string())
}

#[test]
fn longest_match_prefers_identifier_over_keyword_prefix() {
    assert_eq!(kinds("integer"), vec![tok(TokenType::Identifier, "integer")]);
    assert_eq!(kinds("in"), vec![tok(TokenType::In, "in")]);
    assert_eq!(kinds("int"), vec![tok(TokenType::Identifier, "int")]);
}

#[test]
fn blank_lines_collapse_to_one_terminator() {
    assert_eq!(
        kinds("a\n\n\n\nb"),
        vec![
            tok(TokenType::Identifier, "a"),
            tok(TokenType::NewLine, "\n\n\n\n"),
            tok(TokenType::Identifier, "b"),
        ]
    );
    assert_eq!(
        kinds("a\n// one\n\n// two\n\nb"),
        vec![
            tok(TokenType::Identifier, "a"),
            tok(TokenType::NewLine, "\n"),
            tok(TokenType::Identifier, "b"),
        ]
    );
}

#[test]
fn operator_at_end_of_line_continues_statement() {
    assert_eq!(
        kinds("a +\nb"),
        vec![
            tok(TokenType::Identifier, "a"),
            tok(TokenType::Add, "+"),
            tok(TokenType::Identifier, "b"),
        ]
    );
}

#[test]
fn dot_at_start_of_line_continues_statement() {
    assert_eq!(
        kinds("a\n.b()"),
        vec![
            tok(TokenType::Identifier, "a"),
            tok(TokenType::Dot, "."),
            tok(TokenType::Identifier, "b"),
            tok(TokenType::OpenParen, "("),
            tok(TokenType::CloseParen, ")"),
        ]
    );
}

#[test]
fn newline_inside_parentheses_is_dropped() {
    assert_eq!(
        kinds("f(a,\nb)"),
        vec![
            tok(TokenType::Identifier, "f"),
            tok(TokenType::OpenParen, "("),
            tok(TokenType::Identifier, "a"),
            tok(TokenType::Comma, ","),
            tok(TokenType::Identifier, "b"),
            tok(TokenType::CloseParen, ")"),
        ]
    );
}

#[test]
fn second_line_starts_at_line_two_column_one() {
    let dfa = create_dfa();
    let items = lex(&dfa, "ab\ncd");
    assert_eq!(items.len(), 3);
    let (start, kind, text, end) = items[2].clone().unwrap();
    assert_eq!(kind, TokenType::Identifier);
    assert_eq!(text, "cd");
    assert_eq!(start, Location { line: 2, column: 1, index: 3 });
    assert_eq!(end, Location { line: 2, column: 3, index: 5 });
    let (start, kind, _, end) = items[0].clone().unwrap();
    assert_eq!(kind, TokenType::Identifier);
    assert_eq!(start, Location { line: 1, column: 1, index: 0 });
    assert_eq!(end, Location { line: 1, column: 3, index: 2 });
}

#[test]
fn else_on_its_own_line_continues_statement() {
    assert_eq!(
        kinds("}\nelse {"),
        vec![
            tok(TokenType::CloseCurly, "}"),
            tok(TokenType::Else, "else"),
            tok(TokenType::OpenCurly, "{"),
        ]
    );
}

#[test]
fn newline_after_open_curly_and_semicolon_is_dropped() {
    assert_eq!(
        kinds("{\na;\nb\n}"),
        vec![
            tok(TokenType::OpenCurly, "{"),
            tok(TokenType::Identifier, "a"),
            tok(TokenType::Semicolon, ";"),
            tok(TokenType::Identifier, "b"),
            tok(TokenType::NewLine, "\n"),
            tok(TokenType::CloseCurly, "}"),
        ]
    );
}

#[test]
fn comparison_at_end_of_line_does_not_continue() {
    for (text, kind) in [
        ("<", TokenType::LessThan),
        (">", TokenType::GreaterThan),
        ("==", TokenType::Equal),
        ("!=", TokenType::NotEqual),
        ("<=", TokenType::LessOrEqual),
        (">=", TokenType::GreaterOrEqual),
    ] {
        let source = format!("a {}\nb", text);
        assert_eq!(
            kinds(&source),
            vec![
                tok(TokenType::Identifier, "a"),
                tok(kind, text),
                tok(TokenType::NewLine, "\n"),
                tok(TokenType::Identifier, "b"),
            ]
        );
    }
}

#[test]
fn every_continuation_operator_at_end_of_line_continues() {
    for text in [
        "&&", "||", "&&=", "||=", "+", "-", "*", "/", "%", "/%", "&", "|", "^", "<<", ">>", ">>>",
        "=", "+=", "-=", "*=", "/=", "%=", "mod=", "&=", "|=", "^=", "<<=", ">>=", ">>>=", ".",
    ] {
        let source = format!("a {}\nb", text);
        let got = kinds(&source);
        assert_eq!(got.len(), 3, "{}", text);
        assert_eq!(got[1].1, text);
        assert_eq!(got[2], tok(TokenType::Identifier, "b"));
    }
}

#[test]
fn continuation_operator_at_start_of_line_continues() {
    for text in [
        "&&", "||", "&&=", "||=", "+", "-", "*", "/", "%", "/%", "&", "|", "^", "<<", ">>", ">>>",
        "=", "+=", "-=", "*=", "/=", "%=", "&=", "|=", "^=", "<<=", ">>=", ">>>=", ".", ";", "]",
    ] {
        let source = format!("a\n{} b", text);
        let got = kinds(&source);
        assert_eq!(got.len(), 3, "{}", text);
        assert_eq!(got[0], tok(TokenType::Identifier, "a"));
        assert_eq!(got[1].1, text);
    }
}

#[test]
fn other_tokens_at_start_of_line_begin_a_statement() {
    for text in ["<", "==", "(", ")", "[", "{", "}", ",", "!", "x", "1", "if"] {
        let source = format!("a\n{}", text);
        let got = kinds(&source);
        assert_eq!(got.len(), 3, "{}", text);
        assert_eq!(got[1], tok(TokenType::NewLine, "\n"));
    }
}

#[test]
fn square_brackets_nest_and_curly_braces_do_not() {
    assert_eq!(
        kinds("[a\nb]\nc"),
        vec![
            tok(TokenType::OpenBracket, "["),
            tok(TokenType::Identifier, "a"),
            tok(TokenType::Identifier, "b"),
            tok(TokenType::CloseBracket, "]"),
            tok(TokenType::NewLine, "\n"),
            tok(TokenType::Identifier, "c"),
        ]
    );
    assert_eq!(
        kinds("{a\nb}"),
        vec![
            tok(TokenType::OpenCurly, "{"),
            tok(TokenType::Identifier, "a"),
            tok(TokenType::NewLine, "\n"),
            tok(TokenType::Identifier, "b"),
            tok(TokenType::CloseCurly, "}"),
        ]
    );
}

#[test]
fn nested_brackets_suppress_until_all_are_closed() {
    assert_eq!(
        kinds("f(g(a)\nb)\nc"),
        vec![
            tok(TokenType::Identifier, "f"),
            tok(TokenType::OpenParen, "("),
            tok(TokenType::Identifier, "g"),
            tok(TokenType::OpenParen, "("),
            tok(TokenType::Identifier, "a"),
            tok(TokenType::CloseParen, ")"),
            tok(TokenType::Identifier, "b"),
            tok(TokenType::CloseParen, ")"),
            tok(TokenType::NewLine, "\n"),
            tok(TokenType::Identifier, "c"),
        ]
    );
}

#[test]
fn unmatched_close_lets_newlines_through() {
    assert_eq!(
        kinds(")\na"),
        vec![
            tok(TokenType::CloseParen, ")"),
            tok(TokenType::NewLine, "\n"),
            tok(TokenType::Identifier, "a"),
        ]
    );
    assert_eq!(
        kinds(")(\na"),
        vec![
            tok(TokenType::CloseParen, ")"),
            tok(TokenType::OpenParen, "("),
            tok(TokenType::NewLine, "\n"),
            tok(TokenType::Identifier, "a"),
        ]
    );
}

#[test]
fn leading_and_trailing_newlines() {
    assert_eq!(
        kinds("\na\n"),
        vec![
            tok(TokenType::NewLine, "\n"),
            tok(TokenType::Identifier, "a"),
            tok(TokenType::NewLine, "\n"),
        ]
    );
    assert_eq!(kinds("\n"), vec![tok(TokenType::NewLine, "\n")]);
    assert_eq!(kinds(""), vec![]);
    assert_eq!(kinds("  // only a comment"), vec![]);
}

#[test]
fn newline_seen_ahead_of_a_dot_hides_the_dot() {
    assert_eq!(
        kinds("a\n// note\n.b"),
        vec![
            tok(TokenType::Identifier, "a"),
            tok(TokenType::NewLine, "\n"),
            tok(TokenType::Dot, "."),
            tok(TokenType::Identifier, "b"),
        ]
    );
}

#[test]
fn errors_pass_through_and_leave_the_state_alone() {
    let dfa = create_dfa();
    let items = lex(&dfa, "a +#\nb\n#.c");
    let at = |line, column, index| Location { line, column, index };
    assert_eq!(
        items,
        vec![
            Ok((at(1, 1, 0), TokenType::Identifier, "a".to_string(), at(1, 2, 1))),
            Ok((at(1, 3, 2), TokenType::Add, "+".to_string(), at(1, 4, 3))),
            Err(('#', at(1, 4, 3))),
            Ok((at(2, 1, 5), TokenType::Identifier, "b".to_string(), at(2, 2, 6))),
            Ok((at(2, 2, 6), TokenType::NewLine, "\n".to_string(), at(3, 1, 7))),
            Err(('#', at(3, 1, 7))),
            Ok((at(3, 2, 8), TokenType::Dot, ".".to_string(), at(3, 3, 9))),
            Ok((at(3, 3, 9), TokenType::Identifier, "c".to_string(), at(3, 4, 10))),
        ]
    );
}

#[test]
fn end_of_stream_is_terminal() {
    let dfa = create_dfa();
    let mut lexer = Lexer::new(&dfa, "a\n");
    assert!(lexer.next().is_some());
    assert!(lexer.next().is_some());
    assert!(lexer.next().is_none());
    assert!(lexer.next().is_none());
    assert!(lexer.next().is_none());
}

#[test]
fn a_small_program() {
    let source = "fn main() {\n    let total = a +\n        b\n    items\n        .len()\n}\n";
    let got: Vec<TokenType> = kinds(source).into_iter().map(|(kind, _)| kind).collect();
    assert_eq!(
        got,
        vec![
            TokenType::Function,
            TokenType::Identifier,
            TokenType::OpenParen,
            TokenType::CloseParen,
            TokenType::OpenCurly,
            TokenType::Let,
            TokenType::Identifier,
            TokenType::Assign,
            TokenType::Identifier,
            TokenType::Add,
            TokenType::Identifier,
            TokenType::NewLine,
            TokenType::Identifier,
            TokenType::Dot,
            TokenType::Identifier,
            TokenType::OpenParen,
            TokenType::CloseParen,
            TokenType::NewLine,
            TokenType::CloseCurly,
            TokenType::NewLine,
        ]
    );
}
