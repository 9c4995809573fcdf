use seal_lexer::dfa::Dfa;
use seal_lexer::scanner::InnerLexer;
use seal_lexer::seal_dfa::create_dfa;
use seal_lexer::stripper::WhitespaceStripper;
use seal_lexer::token::{LexicalError, Location, TokenType};

type Plain = Result<(Location, TokenType, String, Location), (char, Location)>;

fn raw(dfa: &Dfa, input: &str) -> Vec<Plain> {
    let mut scanner = InnerLexer::new(dfa, input);
    let mut out = Vec::new();
    while let Some(item) = scanner.next() {
        out.push(match item {
            Ok((start, (kind, text), end)) => Ok((start, kind, text.to_string(), end)),
            Err(LexicalError::Unexpected(c, at)) => Err((c, at)),
        });
    }
    assert!(scanner.next().is_none());
    out
}

fn raw_kinds(input: &str) -> Vec<(TokenType, String)> {
    let dfa = create_dfa();
    raw(&dfa, input)
        .into_iter()
        .map(|item| {
            let (_, kind, text, _) = item.expect("no lexical error");
            (kind, text)
        })
        .collect()
}

fn covered(items: &[Plain]) -> String {
    let mut text = String::new();
    for item in items {
        match item {
            Ok((_, _, t, _)) => text.push_str(t),
            Err((c, _)) => text.push(*c),
        }
    }
    text
}

fn at(line: usize, column: usize, index: usize) -> Location {
    Location { line, column, index }
}

fn tok(kind: TokenType, text: &str) -> (TokenType, String) {
    (kind, text.to_string())
}

#[test]
fn raw_tokens_partition_the_source() {
    let dfa = create_dfa();
    let sources = [
        "",
        "a",
        "let x = 1 + 2\n",
        "fn main() {\n    // hi\n    x.y(\"s\\\"t\", 'c', 0x1f, 1.5e-3)\n}\n",
        "a # b $ c",
        "h\u{e9}llo \u{1f600} w\u{f6}rld",
        "\u{1f600}\u{1f601} = 'l + 'x'",
    ];
    for source in sources {
        let items = raw(&dfa, source);
        assert_eq!(covered(&items), source);
        assert!(items.len() <= source.chars().count());
        let mut expected = at(1, 1, 0);
        for item in &items {
            let (start, end) = match item {
                Ok((start, _, text, end)) => {
                    assert_eq!(&source[start.index..end.index], text);
                    (*start, *end)
                }
                Err((c, place)) => {
                    let mut end = *place;
                    end.index += c.len_utf8();
                    end.column += 1;
                    (*place, end)
                }
            };
            assert_eq!(start, expected);
            expected = end;
        }
        assert_eq!(expected.index, source.len());
    }
}

#[test]
fn empty_source_has_no_tokens() {
    let dfa = create_dfa();
    assert!(raw(&dfa, "").is_empty());
    let mut scanner = InnerLexer::new(&dfa, "");
    assert!(scanner.next().is_none());
    assert!(scanner.next().is_none());
}

#[test]
fn longest_match_backtracks_to_last_accepting_state() {
    assert_eq!(
        raw_kinds("1..2"),
        vec![
            tok(TokenType::IntLiteral, "1"),
            tok(TokenType::RangeExclusive, ".."),
            tok(TokenType::IntLiteral, "2"),
        ]
    );
    assert_eq!(
        raw_kinds("1.x"),
        vec![
            tok(TokenType::IntLiteral, "1"),
            tok(TokenType::Dot, "."),
            tok(TokenType::Identifier, "x"),
        ]
    );
    assert_eq!(raw_kinds("1.5"), vec![tok(TokenType::FloatLiteral, "1.5")]);
    assert_eq!(
        raw_kinds("1else"),
        vec![tok(TokenType::IntLiteral, "1"), tok(TokenType::Else, "else")]
    );
}

#[test]
fn longest_match_on_a_hand_built_automaton() {
    let mut dfa = Dfa::new();
    dfa.add_literal("ab", TokenType::Add);
    dfa.add_literal("abcd", TokenType::Sub);
    let items = raw(&dfa, "abcdabcxab");
    assert_eq!(
        items,
        vec![
            Ok((at(1, 1, 0), TokenType::Sub, "abcd".to_string(), at(1, 5, 4))),
            Ok((at(1, 5, 4), TokenType::Add, "ab".to_string(), at(1, 7, 6))),
            Err(('c', at(1, 7, 6))),
            Err(('x', at(1, 8, 7))),
            Ok((at(1, 9, 8), TokenType::Add, "ab".to_string(), at(1, 11, 10))),
        ]
    );
}

#[test]
fn unexpected_characters_are_skipped_one_at_a_time() {
    let dfa = create_dfa();
    let items = raw(&dfa, "a#$b");
    assert_eq!(
        items,
        vec![
            Ok((at(1, 1, 0), TokenType::Identifier, "a".to_string(), at(1, 2, 1))),
            Err(('#', at(1, 2, 1))),
            Err(('$', at(1, 3, 2))),
            Ok((at(1, 4, 3), TokenType::Identifier, "b".to_string(), at(1, 5, 4))),
        ]
    );
    let items = raw(&dfa, "###");
    assert_eq!(
        items,
        vec![Err(('#', at(1, 1, 0))), Err(('#', at(1, 2, 1))), Err(('#', at(1, 3, 2)))]
    );
}

#[test]
fn unexpected_multibyte_character_advances_by_its_width() {
    let dfa = create_dfa();
    let items = raw(&dfa, "\u{e9}x");
    assert_eq!(
        items,
        vec![
            Err(('\u{e9}', at(1, 1, 0))),
            Ok((at(1, 2, 2), TokenType::Identifier, "x".to_string(), at(1, 3, 3))),
        ]
    );
}

#[test]
fn unexpected_line_feed_starts_a_new_line() {
    let mut dfa = Dfa::new();
    dfa.add_literal("a", TokenType::Identifier);
    let items = raw(&dfa, "a\na");
    assert_eq!(
        items,
        vec![
            Ok((at(1, 1, 0), TokenType::Identifier, "a".to_string(), at(1, 2, 1))),
            Err(('\n', at(1, 2, 1))),
            Ok((at(2, 1, 2), TokenType::Identifier, "a".to_string(), at(2, 2, 3))),
        ]
    );
}

#[test]
fn columns_count_characters_and_offsets_count_bytes() {
    let dfa = create_dfa();
    let items = raw(&dfa, "\"\u{e9}\u{1f600}\" x");
    assert_eq!(
        items,
        vec![
            Ok((at(1, 1, 0), TokenType::StringLiteral, "\"\u{e9}\u{1f600}\"".to_string(), at(1, 5, 8))),
            Ok((at(1, 5, 8), TokenType::Whitespace, " ".to_string(), at(1, 6, 9))),
            Ok((at(1, 6, 9), TokenType::Identifier, "x".to_string(), at(1, 7, 10))),
        ]
    );
}

#[test]
fn whitespace_with_a_line_feed_is_a_newline() {
    assert_eq!(
        raw_kinds("a \t b"),
        vec![
            tok(TokenType::Identifier, "a"),
            tok(TokenType::Whitespace, " \t "),
            tok(TokenType::Identifier, "b"),
        ]
    );
    assert_eq!(
        raw_kinds("a \n\t b"),
        vec![
            tok(TokenType::Identifier, "a"),
            tok(TokenType::NewLine, " \n\t "),
            tok(TokenType::Identifier, "b"),
        ]
    );
    assert_eq!(raw_kinds("\r\n"), vec![tok(TokenType::NewLine, "\r\n")]);
}

#[test]
fn newline_moves_to_the_next_line() {
    let dfa = create_dfa();
    let items = raw(&dfa, "a\n\n  b");
    assert_eq!(
        items,
        vec![
            Ok((at(1, 1, 0), TokenType::Identifier, "a".to_string(), at(1, 2, 1))),
            Ok((at(1, 2, 1), TokenType::NewLine, "\n\n  ".to_string(), at(3, 3, 5))),
            Ok((at(3, 3, 5), TokenType::Identifier, "b".to_string(), at(3, 4, 6))),
        ]
    );
}

#[test]
fn identifiers_that_spell_reserved_words_are_reclassified() {
    assert_eq!(
        raw_kinds("if iff i"),
        vec![
            tok(TokenType::If, "if"),
            tok(TokenType::Whitespace, " "),
            tok(TokenType::Identifier, "iff"),
            tok(TokenType::Whitespace, " "),
            tok(TokenType::Identifier, "i"),
        ]
    );
    assert_eq!(raw_kinds("While"), vec![tok(TokenType::Identifier, "While")]);
    assert_eq!(raw_kinds("while"), vec![tok(TokenType::While, "while")]);
    assert_eq!(raw_kinds("mod"), vec![tok(TokenType::Mod, "mod")]);
    assert_eq!(raw_kinds("model"), vec![tok(TokenType::Identifier, "model")]);
}

#[test]
fn reclassification_applies_to_identifiers_only() {
    let mut dfa = Dfa::new();
    dfa.add_literal("if", TokenType::StringLiteral);
    dfa.add_literal("in", TokenType::Identifier);
    let items = raw(&dfa, "ifin");
    assert_eq!(
        items,
        vec![
            Ok((at(1, 1, 0), TokenType::StringLiteral, "if".to_string(), at(1, 3, 2))),
            Ok((at(1, 3, 2), TokenType::In, "in".to_string(), at(1, 5, 4))),
        ]
    );
}

#[test]
fn trivia_filter_drops_whitespace_and_comments_only() {
    let dfa = create_dfa();
    let mut filter = WhitespaceStripper::new(&dfa, "a  // note\n/// doc\n//! top\n# b");
    let mut seen = Vec::new();
    while let Some(item) = filter.next() {
        seen.push(match item {
            Ok((_, (kind, text), _)) => Ok((kind, text.to_string())),
            Err(LexicalError::Unexpected(c, place)) => Err((c, place)),
        });
    }
    assert!(filter.next().is_none());
    assert_eq!(
        seen,
        vec![
            Ok(tok(TokenType::Identifier, "a")),
            Ok(tok(TokenType::NewLine, "\n")),
            Ok(tok(TokenType::DocComment, "/// doc")),
            Ok(tok(TokenType::NewLine, "\n")),
            Ok(tok(TokenType::ModuleDocComment, "//! top")),
            Ok(tok(TokenType::NewLine, "\n")),
            Err(('#', at(4, 1, 27))),
            Ok(tok(TokenType::Identifier, "b")),
        ]
    );
}
