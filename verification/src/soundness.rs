//! That the automaton of the language accepts nothing but its tokens.
//!
//! Each stage of the construction comes with a description of the automaton
//! built so far: for every state, what the texts that lead to it look like.
//! A description is kept by every transition, so it holds of every walk; and
//! where a state accepts, the texts it describes are tokens of that category.

use crate::dfa::{is_trie, Dfa};
use crate::grammar::{
    closes_string, comment_kind, is_binary, is_binary_digit, is_blank, is_blank_char,
    is_char_literal, is_decimal, is_digit, is_fraction, is_hex_digit, is_hexadecimal,
    is_identifier, is_identifier_char, is_identifier_start, is_label, is_line_comment, is_octal,
    is_octal_digit, is_scientific, is_string, is_token, symbols, SYMBOL_COUNT,
};
use crate::seal_dfa::marks_are_symbols;
use crate::token::TokenType;
use crate::walks::{
    describes, exact_language, lemma_describes_extended, lemma_described_walk,
    lemma_exact_language, lemma_trie_injective, lemma_trie_root, lemma_walk_in_range, Language,
};
use vstd::prelude::*;

verus! {

/// Whether every text that `lang` describes for an accepting state is a
/// token of the state's category.
pub open spec fn fits(dfa: Dfa, lang: Language) -> bool {
    forall|q: int, t: Seq<char>|
        0 <= q < dfa@.len() && #[trigger] lang(q, t) && t.len() >= 1 && dfa.accepting(q) is Some
            ==> is_token(t, dfa.accepting(q).unwrap())
}

/// Whether `lang` describes nothing but the empty text for the root.
pub open spec fn starts_at_root(lang: Language) -> bool {
    forall|t: Seq<char>| #[trigger] lang(0, t) ==> t.len() == 0
}

/// Whether `lang` is a description of the automaton under which it accepts
/// nothing but tokens.
pub open spec fn sound(dfa: Dfa, lang: Language) -> bool {
    &&& dfa.wf()
    &&& describes(dfa, lang)
    &&& fits(dfa, lang)
    &&& starts_at_root(lang)
}

/// A sound automaton accepts nothing but tokens.
pub proof fn lemma_sound_accepts_tokens(
    dfa: Dfa,
    lang: Language,
    text: Seq<char>,
    kind: TokenType,
)
    requires
        sound(dfa, lang),
        dfa.recognizes(text, kind),
    ensures
        is_token(text, kind),
{
    lemma_described_walk(dfa, lang, text, text.len() as int);
    lemma_walk_in_range(dfa, text, text.len() as int);
    assert(text.take(text.len() as int) =~= text);
}

/// Soundness carries over to a grown automaton, if the wider description
/// holds where the first did, is kept by every new transition, and fits
/// every state it describes anew.
pub proof fn lemma_sound_extended(
    a: Dfa,
    b: Dfa,
    lang: Language,
    wider: Language,
)
    requires
        sound(a, lang),
        b.wf(),
        a@.len() <= b@.len(),
        forall|q: int, t: Seq<char>| 0 <= q < a@.len() && #[trigger] lang(q, t) ==> wider(q, t),
        forall|q: int, c: char, t: Seq<char>|
            #![trigger wider(q, t), b.step(q, c)]
            0 <= q < b@.len() && wider(q, t) && b.step(q, c) is Some && !(q < a@.len() && lang(
                q,
                t,
            ) && a.step(q, c) == b.step(q, c)) ==> wider(b.step(q, c).unwrap(), t.push(c)),
        forall|q: int, t: Seq<char>|
            0 <= q < b@.len() && #[trigger] wider(q, t) && t.len() >= 1 && b.accepting(q) is Some
                && !(q < a@.len() && lang(q, t) && a.accepting(q) == b.accepting(q)) ==> is_token(
                t,
                b.accepting(q).unwrap(),
            ),
        forall|t: Seq<char>| #[trigger] wider(0, t) ==> lang(0, t),
    ensures
        sound(b, wider),
{
    lemma_describes_extended(a, b, lang, wider);
}

/// The automaton of the symbols is sound under the description of each
/// state by the texts that lead to it.
pub proof fn lemma_symbols_sound(dfa: Dfa)
    requires
        dfa.wf(),
        is_trie(dfa@),
        forall|j: int|
            0 <= j < SYMBOL_COUNT ==> dfa.recognizes(#[trigger] symbols(j).0, symbols(j).1),
        marks_are_symbols(dfa, SYMBOL_COUNT as int),
    ensures
        sound(dfa, exact_language(dfa)),
{
    let lang = exact_language(dfa);
    lemma_exact_language(dfa);
    assert forall|q: int, t: Seq<char>|
        0 <= q < dfa@.len() && #[trigger] lang(q, t) && t.len() >= 1 && dfa.accepting(
            q,
        ) is Some implies is_token(t, dfa.accepting(q).unwrap()) by {
        let j = choose|j: int|
            0 <= j < SYMBOL_COUNT && dfa.state_after(
                #[trigger] symbols(j).0,
                symbols(j).0.len() as int,
            ) == Some(q);
        lemma_trie_injective(dfa, symbols(j).0, t);
        assert(dfa.recognizes(symbols(j).0, symbols(j).1));
        assert(symbols(j) == (t, dfa.accepting(q).unwrap()));
    }
    assert forall|t: Seq<char>| #[trigger] lang(0, t) implies t.len() == 0 by {
        lemma_trie_root(dfa, t, t.len() as int);
    }
}

/// A comment with one more character of the line is a comment of the same
/// category.
pub proof fn lemma_line_comment_push(t: Seq<char>, c: char)
    requires
        is_line_comment(t),
        c != '\n',
    ensures
        is_line_comment(t.push(c)),
        t.len() >= 3 ==> t.push(c)[2] == t[2],
{
    assert forall|i: int| 2 <= i < t.push(c).len() implies #[trigger] t.push(c)[i] != '\n' by {
        if i < t.len() {
            assert(t.push(c)[i] == t[i]);
        }
    }
}

/// The description of the automaton with the comment part: the states after
/// a third slash, after an exclamation mark and after anything else are led
/// to by the comments that go on so.
pub open spec fn comment_language(
    lang: Language,
    doc: int,
    module_doc: int,
    body: int,
) -> Language {
    |q: int, t: Seq<char>|
        if q == doc {
            is_line_comment(t) && t.len() >= 3 && t[2] == '/'
        } else if q == module_doc {
            is_line_comment(t) && t.len() >= 3 && t[2] == '!'
        } else if q == body {
            is_line_comment(t) && t.len() >= 3 && t[2] != '/' && t[2] != '!'
        } else {
            lang(q, t)
        }
}

/// Whether `b` is `a` with the comment part: the new state `body`, which
/// takes the rest of the line, as `doc` and `module_doc` do, and to which
/// `opened` leads on what leads to neither of those.
pub open spec fn comment_steps(
    a: Dfa,
    b: Dfa,
    opened: int,
    doc: int,
    module_doc: int,
    body: int,
) -> bool {
    &&& b@.len() == a@.len() + 1
    &&& body == a@.len()
    &&& 0 < opened < a@.len()
    &&& 0 < doc < a@.len()
    &&& 0 < module_doc < a@.len()
    &&& opened != doc && opened != module_doc && doc != module_doc
    &&& forall|p: int, c: char|
        0 <= p < a@.len() ==> #[trigger] b.step(p, c) == (if p == opened && c != '\n' && c != '/'
            && c != '!' {
            Some(body)
        } else if p == doc && c != '\n' {
            Some(doc)
        } else if p == module_doc && c != '\n' {
            Some(module_doc)
        } else {
            a.step(p, c)
        })
    &&& forall|c: char| #[trigger] b.step(body, c) == (if c != '\n' {
            Some(body)
        } else {
            None
        })
    &&& forall|p: int| 0 <= p < a@.len() ==> #[trigger] b.accepting(p) == a.accepting(p)
    &&& b.accepting(body) == Some(TokenType::Comment)
    &&& a.accepting(doc) == Some(TokenType::DocComment)
    &&& a.accepting(module_doc) == Some(TokenType::ModuleDocComment)
    &&& forall|c: char| (#[trigger] a.step(opened, c)) is Some ==> c == '/' || c == '!'
    &&& forall|c: char| (#[trigger] a.step(doc, c)) is None
    &&& forall|c: char| (#[trigger] a.step(module_doc, c)) is None
}

/// The automaton with the comment part is sound.
pub proof fn lemma_comments_sound(
    a: Dfa,
    b: Dfa,
    lang: Language,
    opened: int,
    doc: int,
    module_doc: int,
    body: int,
)
    requires
        sound(a, lang),
        b.wf(),
        comment_steps(a, b, opened, doc, module_doc, body),
        forall|t: Seq<char>| #[trigger] lang(opened, t) ==> t == seq!['/', '/'],
        forall|t: Seq<char>| #[trigger] lang(doc, t) ==> t == seq!['/', '/', '/'],
        forall|t: Seq<char>| #[trigger] lang(module_doc, t) ==> t == seq!['/', '/', '!'],
    ensures
        sound(b, comment_language(lang, doc, module_doc, body)),
{
    let wider = comment_language(lang, doc, module_doc, body);
    assert forall|q: int, c: char, t: Seq<char>|
        #![trigger wider(q, t), b.step(q, c)]
        0 <= q < b@.len() && wider(q, t) && b.step(q, c) is Some && !(q < a@.len() && lang(q, t)
            && a.step(q, c) == b.step(q, c)) implies wider(b.step(q, c).unwrap(), t.push(c)) by {
        if q == doc || q == module_doc || q == body {
            lemma_line_comment_push(t, c);
        } else {
            assert(q == opened);
            assert(t == seq!['/', '/']);
            assert(t.push(c) =~= seq!['/', '/', c]);
        }
    }
    assert forall|q: int, t: Seq<char>|
        0 <= q < b@.len() && #[trigger] wider(q, t) && t.len() >= 1 && b.accepting(q) is Some && !(q
            < a@.len() && lang(q, t) && a.accepting(q) == b.accepting(q)) implies is_token(
        t,
        b.accepting(q).unwrap(),
    ) by {
        assert(q == doc || q == module_doc || q == body);
        assert(is_line_comment(t) && b.accepting(q).unwrap() == comment_kind(t));
    }
    lemma_sound_extended(a, b, lang, wider);
}

/// A run of whitespace with one more whitespace character is a run of
/// whitespace.
pub proof fn lemma_blank_push(t: Seq<char>, c: char)
    requires
        t.len() == 0 || is_blank(t),
        is_blank_char(c),
    ensures
        is_blank(t.push(c)),
{
    assert forall|i: int| 0 <= i < t.push(c).len() implies is_blank_char(
        #[trigger] t.push(c)[i],
    ) by {
        if i < t.len() {
            assert(t.push(c)[i] == t[i]);
        }
    }
}

/// The description of the automaton with the whitespace part.
pub open spec fn whitespace_language(lang: Language, blank: int) -> Language {
    |q: int, t: Seq<char>|
        if q == blank {
            is_blank(t)
        } else {
            lang(q, t)
        }
}

/// Whether `b` is `a` with the whitespace part: the new state `blank`, to
/// which the root and `blank` itself lead on whitespace characters.
pub open spec fn whitespace_steps(a: Dfa, b: Dfa, blank: int) -> bool {
    &&& b@.len() == a@.len() + 1
    &&& blank == a@.len()
    &&& forall|p: int, c: char|
        0 <= p < a@.len() ==> #[trigger] b.step(p, c) == (if p == 0 && is_blank_char(c) {
            Some(blank)
        } else {
            a.step(p, c)
        })
    &&& forall|c: char| #[trigger] b.step(blank, c) == (if is_blank_char(c) {
            Some(blank)
        } else {
            None
        })
    &&& forall|p: int| 0 <= p < a@.len() ==> #[trigger] b.accepting(p) == a.accepting(p)
    &&& b.accepting(blank) == Some(TokenType::Whitespace)
}

/// The automaton with the whitespace part is sound.
pub proof fn lemma_whitespace_sound(
    a: Dfa,
    b: Dfa,
    lang: Language,
    blank: int,
)
    requires
        sound(a, lang),
        b.wf(),
        whitespace_steps(a, b, blank),
    ensures
        sound(b, whitespace_language(lang, blank)),
{
    let wider = whitespace_language(lang, blank);
    assert forall|q: int, c: char, t: Seq<char>|
        #![trigger wider(q, t), b.step(q, c)]
        0 <= q < b@.len() && wider(q, t) && b.step(q, c) is Some && !(q < a@.len() && lang(q, t)
            && a.step(q, c) == b.step(q, c)) implies wider(b.step(q, c).unwrap(), t.push(c)) by {
        lemma_blank_push(t, c);
    }
    lemma_sound_extended(a, b, lang, wider);
}

/// An identifier with one more character an identifier may go on with is an
/// identifier.
pub proof fn lemma_identifier_push(t: Seq<char>, c: char)
    requires
        is_identifier(t),
        is_identifier_char(c),
    ensures
        is_identifier(t.push(c)),
{
    assert(t.push(c)[0] == t[0]);
    assert forall|i: int| 1 <= i < t.push(c).len() implies is_identifier_char(
        #[trigger] t.push(c)[i],
    ) by {
        if i < t.len() {
            assert(t.push(c)[i] == t[i]);
        }
    }
}

/// The description of the automaton with the identifier part: `word` is led
/// to by identifiers, the other states by the beginnings of `mod=`.
pub open spec fn identifier_language(
    lang: Language,
    word: int,
) -> Language {
    |q: int, t: Seq<char>|
        if q == word {
            is_identifier(t)
        } else if q == word + 1 {
            t == seq!['m']
        } else if q == word + 2 {
            t == seq!['m', 'o']
        } else if q == word + 3 {
            t == seq!['m', 'o', 'd']
        } else if q == word + 4 {
            t == seq!['m', 'o', 'd', '=']
        } else {
            lang(q, t)
        }
}

/// Whether `b` is `a` with the identifier part: five new states, `word` and
/// the four after it for `m`, `mo`, `mod` and `mod=`.
pub open spec fn identifier_steps(a: Dfa, b: Dfa, word: int) -> bool {
    &&& b@.len() == a@.len() + 5
    &&& word == a@.len()
    &&& forall|p: int, c: char|
        0 <= p < a@.len() ==> #[trigger] b.step(p, c) == (if p == 0 && c == 'm' {
            Some(word + 1)
        } else if p == 0 && is_identifier_start(c) {
            Some(word)
        } else {
            a.step(p, c)
        })
    &&& forall|c: char| #[trigger] b.step(word, c) == (if is_identifier_char(c) {
            Some(word)
        } else {
            None
        })
    &&& forall|c: char| #[trigger] b.step(word + 1, c) == (if c == 'o' {
            Some(word + 2)
        } else if is_identifier_char(c) {
            Some(word)
        } else {
            None
        })
    &&& forall|c: char| #[trigger] b.step(word + 2, c) == (if c == 'd' {
            Some(word + 3)
        } else if is_identifier_char(c) {
            Some(word)
        } else {
            None
        })
    &&& forall|c: char| #[trigger] b.step(word + 3, c) == (if c == '=' {
            Some(word + 4)
        } else if is_identifier_char(c) {
            Some(word)
        } else {
            None
        })
    &&& forall|c: char| (#[trigger] b.step(word + 4, c)) is None
    &&& forall|p: int| 0 <= p < a@.len() ==> #[trigger] b.accepting(p) == a.accepting(p)
    &&& b.accepting(word) == Some(TokenType::Identifier)
    &&& b.accepting(word + 1) == Some(TokenType::Identifier)
    &&& b.accepting(word + 2) == Some(TokenType::Identifier)
    &&& b.accepting(word + 3) == Some(TokenType::Identifier)
    &&& b.accepting(word + 4) == Some(TokenType::ModAssign)
}

/// The automaton with the identifier part is sound.
pub proof fn lemma_identifiers_sound(
    a: Dfa,
    b: Dfa,
    lang: Language,
    word: int,
)
    requires
        sound(a, lang),
        b.wf(),
        identifier_steps(a, b, word),
    ensures
        sound(b, identifier_language(lang, word)),
{
    let wider = identifier_language(lang, word);
    assert forall|q: int, c: char, t: Seq<char>|
        #![trigger wider(q, t), b.step(q, c)]
        0 <= q < b@.len() && wider(q, t) && b.step(q, c) is Some && !(q < a@.len() && lang(q, t)
            && a.step(q, c) == b.step(q, c)) implies wider(b.step(q, c).unwrap(), t.push(c)) by {
        if q == word {
            lemma_identifier_push(t, c);
        } else if q == 0 {
            assert(t.len() == 0);
            assert(t.push(c) =~= seq![c]);
        } else {
            assert(t.len() >= 1 && is_identifier(t));
            if is_identifier_char(c) {
                lemma_identifier_push(t, c);
            }
            assert(t.push(c).len() == t.len() + 1);
            if q == word + 1 {
                assert(c == 'o' ==> t.push(c) =~= seq!['m', 'o']);
            } else if q == word + 2 {
                assert(c == 'd' ==> t.push(c) =~= seq!['m', 'o', 'd']);
            } else {
                assert(c == '=' ==> t.push(c) =~= seq!['m', 'o', 'd', '=']);
            }
        }
    }
    lemma_sound_extended(a, b, lang, wider);
}

/// A decimal integer with one more digit or underscore is a decimal integer.
pub proof fn lemma_decimal_push(t: Seq<char>, c: char)
    requires
        is_decimal(t),
        is_digit(c) || c == '_',
    ensures
        is_decimal(t.push(c)),
{
    assert(t.push(c)[0] == t[0]);
    assert forall|i: int| 1 <= i < t.push(c).len() implies is_digit(#[trigger] t.push(c)[i])
        || t.push(c)[i] == '_' by {
        if i < t.len() {
            assert(t.push(c)[i] == t[i]);
        }
    }
}

/// A decimal fraction with one more digit or underscore is a decimal
/// fraction.
pub proof fn lemma_fraction_push(t: Seq<char>, whole: int, c: char)
    requires
        is_fraction(t, whole),
        is_digit(c) || c == '_',
    ensures
        is_fraction(t.push(c), whole),
{
    assert(t.push(c).take(whole) =~= t.take(whole));
    assert(t.push(c)[whole] == t[whole]);
    assert(t.push(c)[whole + 1] == t[whole + 1]);
    assert forall|i: int| whole + 2 <= i < t.push(c).len() implies is_digit(
        #[trigger] t.push(c)[i],
    ) || t.push(c)[i] == '_' by {
        if i < t.len() {
            assert(t.push(c)[i] == t[i]);
        }
    }
}

/// A number with an exponent and one more digit is a number with an
/// exponent.
pub proof fn lemma_scientific_push(t: Seq<char>, mantissa: int, c: char)
    requires
        is_scientific(t, mantissa),
        is_digit(c),
    ensures
        is_scientific(t.push(c), mantissa),
{
    assert(t.push(c).take(mantissa) =~= t.take(mantissa));
    assert(t.push(c)[mantissa] == t[mantissa]);
    assert(t.push(c)[mantissa + 1] == t[mantissa + 1]);
    let digits = if t[mantissa + 1] == '+' || t[mantissa + 1] == '-' {
        mantissa + 2
    } else {
        mantissa + 1
    };
    assert forall|i: int| digits <= i < t.push(c).len() implies is_digit(
        #[trigger] t.push(c)[i],
    ) by {
        if i < t.len() {
            assert(t.push(c)[i] == t[i]);
        }
    }
}

/// Whether `text` can stand before an exponent: a decimal integer or
/// fraction.
pub open spec fn is_mantissa(text: Seq<char>) -> bool {
    is_decimal(text) || exists|whole: int| is_fraction(text, whole)
}

/// The description of the automaton with the decimal part. The seven new
/// states are, from `mark` on: after the letter `e`, after the sign, in the
/// exponent, after a zero, in an integer, after the point, in the fraction.
pub open spec fn decimal_language(
    lang: Language,
    mark: int,
) -> Language {
    |q: int, t: Seq<char>|
        if q == mark {
            &&& t.len() >= 2
            &&& is_mantissa(t.take(t.len() - 1))
            &&& (t[t.len() - 1] == 'e' || t[t.len() - 1] == 'E')
        } else if q == mark + 1 {
            &&& t.len() >= 3
            &&& is_mantissa(t.take(t.len() - 2))
            &&& (t[t.len() - 2] == 'e' || t[t.len() - 2] == 'E')
            &&& (t[t.len() - 1] == '+' || t[t.len() - 1] == '-')
        } else if q == mark + 2 {
            exists|mantissa: int| is_scientific(t, mantissa)
        } else if q == mark + 3 {
            t == seq!['0']
        } else if q == mark + 4 {
            is_decimal(t)
        } else if q == mark + 5 {
            t.len() >= 2 && is_decimal(t.take(t.len() - 1)) && t[t.len() - 1] == '.'
        } else if q == mark + 6 {
            exists|whole: int| is_fraction(t, whole)
        } else {
            lang(q, t)
        }
}

/// Whether `b` is `a` with the decimal part: seven new states from `mark`
/// on, in the order of [`decimal_language`].
pub open spec fn decimal_steps(a: Dfa, b: Dfa, mark: int) -> bool {
    &&& b@.len() == a@.len() + 7
    &&& mark == a@.len()
    &&& forall|p: int, c: char|
        0 <= p < a@.len() ==> #[trigger] b.step(p, c) == (if p == 0 && c == '0' {
            Some(mark + 3)
        } else if p == 0 && '1' <= c <= '9' {
            Some(mark + 4)
        } else {
            a.step(p, c)
        })
    &&& forall|c: char| #[trigger] b.step(mark, c) == (if c == '+' || c == '-' {
            Some(mark + 1)
        } else if is_digit(c) {
            Some(mark + 2)
        } else {
            None
        })
    &&& forall|c: char| #[trigger] b.step(mark + 1, c) == (if is_digit(c) {
            Some(mark + 2)
        } else {
            None
        })
    &&& forall|c: char| #[trigger] b.step(mark + 2, c) == (if is_digit(c) {
            Some(mark + 2)
        } else {
            None
        })
    &&& forall|c: char| #[trigger] b.step(mark + 3, c) == (if is_digit(c) || c == '_' {
            Some(mark + 4)
        } else if c == '.' {
            Some(mark + 5)
        } else if c == 'e' || c == 'E' {
            Some(mark)
        } else {
            None
        })
    &&& forall|c: char| #[trigger] b.step(mark + 4, c) == (if is_digit(c) || c == '_' {
            Some(mark + 4)
        } else if c == '.' {
            Some(mark + 5)
        } else if c == 'e' || c == 'E' {
            Some(mark)
        } else {
            None
        })
    &&& forall|c: char| #[trigger] b.step(mark + 5, c) == (if is_digit(c) {
            Some(mark + 6)
        } else {
            None
        })
    &&& forall|c: char| #[trigger] b.step(mark + 6, c) == (if is_digit(c) || c == '_' {
            Some(mark + 6)
        } else if c == 'e' || c == 'E' {
            Some(mark)
        } else {
            None
        })
    &&& forall|p: int| 0 <= p < a@.len() ==> #[trigger] b.accepting(p) == a.accepting(p)
    &&& b.accepting(mark) is None
    &&& b.accepting(mark + 1) is None
    &&& b.accepting(mark + 2) == Some(TokenType::FloatLiteral)
    &&& b.accepting(mark + 3) == Some(TokenType::IntLiteral)
    &&& b.accepting(mark + 4) == Some(TokenType::IntLiteral)
    &&& b.accepting(mark + 5) is None
    &&& b.accepting(mark + 6) == Some(TokenType::FloatLiteral)
}

/// The automaton with the decimal part is sound.
pub proof fn lemma_decimals_sound(
    a: Dfa,
    b: Dfa,
    lang: Language,
    mark: int,
)
    requires
        sound(a, lang),
        b.wf(),
        decimal_steps(a, b, mark),
    ensures
        sound(b, decimal_language(lang, mark)),
{
    let wider = decimal_language(lang, mark);
    assert forall|q: int, c: char, t: Seq<char>|
        #![trigger wider(q, t), b.step(q, c)]
        0 <= q < b@.len() && wider(q, t) && b.step(q, c) is Some && !(q < a@.len() && lang(q, t)
            && a.step(q, c) == b.step(q, c)) implies wider(b.step(q, c).unwrap(), t.push(c)) by {
        let n = t.len() as int;
        let u = t.push(c);
        assert(u.take(n) =~= t);
        if q == 0 {
            assert(n == 0);
            assert(u =~= seq![c]);
        } else if q == mark {
            assert(u.take(n - 1) =~= t.take(n - 1));
            if is_digit(c) {
                assert(is_scientific(u, n - 1));
            }
        } else if q == mark + 1 {
            assert(u.take(n - 2) =~= t.take(n - 2));
            assert(is_scientific(u, n - 2));
        } else if q == mark + 2 {
            let m = choose|m: int| is_scientific(t, m);
            lemma_scientific_push(t, m, c);
        } else if q == mark + 3 || q == mark + 4 {
            if is_digit(c) || c == '_' {
                lemma_decimal_push(t, c);
            }
        } else if q == mark + 5 {
            assert(t.take(n - 1).take(n - 1) =~= t.take(n - 1));
            assert(u.take(n - 1) =~= t.take(n - 1));
            assert(is_fraction(u, n - 1));
        } else {
            let w = choose|w: int| is_fraction(t, w);
            if is_digit(c) || c == '_' {
                lemma_fraction_push(t, w, c);
            }
        }
    }
    lemma_sound_extended(a, b, lang, wider);
}

/// A hexadecimal integer with one more digit of its base or underscore is
/// a hexadecimal integer.
pub proof fn lemma_hexadecimal_push(t: Seq<char>, c: char)
    requires
        is_hexadecimal(t),
        is_hex_digit(c) || c == '_',
    ensures
        is_hexadecimal(t.push(c)),
{
    assert(t.push(c)[0] == t[0]);
    assert(t.push(c)[1] == t[1]);
    assert(t.push(c)[2] == t[2]);
    assert forall|i: int| 3 <= i < t.push(c).len() implies is_hex_digit(#[trigger] t.push(c)[i])
        || t.push(c)[i] == '_' by {
        if i < t.len() {
            assert(t.push(c)[i] == t[i]);
        }
    }
}

/// The description of the automaton with the part for hexadecimal integers:
/// `mark` is led to by `0x`, the state after it by the integers.
pub open spec fn hexadecimal_language(
    lang: Language,
    mark: int,
) -> Language {
    |q: int, t: Seq<char>|
        if q == mark {
            t == seq!['0', 'x']
        } else if q == mark + 1 {
            is_hexadecimal(t)
        } else {
            lang(q, t)
        }
}

/// Whether `b` is `a` with the part for hexadecimal integers: two new states,
/// `mark`, to which `zero` leads on the letter `x`, and the state for the
/// digits.
pub open spec fn hexadecimal_steps(a: Dfa, b: Dfa, zero: int, mark: int) -> bool {
    &&& b@.len() == a@.len() + 2
    &&& mark == a@.len()
    &&& 0 < zero < a@.len()
    &&& forall|p: int, c: char|
        0 <= p < a@.len() ==> #[trigger] b.step(p, c) == (if p == zero && c == 'x' {
            Some(mark)
        } else {
            a.step(p, c)
        })
    &&& forall|c: char| #[trigger] b.step(mark, c) == (if is_hex_digit(c) {
            Some(mark + 1)
        } else {
            None
        })
    &&& forall|c: char| #[trigger] b.step(mark + 1, c) == (if is_hex_digit(c) || c == '_' {
            Some(mark + 1)
        } else {
            None
        })
    &&& forall|p: int| 0 <= p < a@.len() ==> #[trigger] b.accepting(p) == a.accepting(p)
    &&& b.accepting(mark) is None
    &&& b.accepting(mark + 1) == Some(TokenType::HexLiteral)
}

/// The automaton with the part for hexadecimal integers is sound.
pub proof fn lemma_hexadecimal_sound(
    a: Dfa,
    b: Dfa,
    lang: Language,
    zero: int,
    mark: int,
)
    requires
        sound(a, lang),
        b.wf(),
        hexadecimal_steps(a, b, zero, mark),
        forall|t: Seq<char>| #[trigger] lang(zero, t) ==> t == seq!['0'],
    ensures
        sound(b, hexadecimal_language(lang, mark)),
{
    let wider = hexadecimal_language(lang, mark);
    assert forall|q: int, c: char, t: Seq<char>|
        #![trigger wider(q, t), b.step(q, c)]
        0 <= q < b@.len() && wider(q, t) && b.step(q, c) is Some && !(q < a@.len() && lang(q, t)
            && a.step(q, c) == b.step(q, c)) implies wider(b.step(q, c).unwrap(), t.push(c)) by {
        if q == zero {
            assert(t.push(c) =~= seq!['0', c]);
        } else if q == mark {
            assert(t.push(c) =~= seq!['0', 'x', c]);
        } else {
            lemma_hexadecimal_push(t, c);
        }
    }
    lemma_sound_extended(a, b, lang, wider);
}

/// An octal integer with one more digit of its base or underscore is
/// an octal integer.
pub proof fn lemma_octal_push(t: Seq<char>, c: char)
    requires
        is_octal(t),
        is_octal_digit(c) || c == '_',
    ensures
        is_octal(t.push(c)),
{
    assert(t.push(c)[0] == t[0]);
    assert(t.push(c)[1] == t[1]);
    assert(t.push(c)[2] == t[2]);
    assert forall|i: int| 3 <= i < t.push(c).len() implies is_octal_digit(#[trigger] t.push(c)[i])
        || t.push(c)[i] == '_' by {
        if i < t.len() {
            assert(t.push(c)[i] == t[i]);
        }
    }
}

/// The description of the automaton with the part for octal integers:
/// `mark` is led to by `0o`, the state after it by the integers.
pub open spec fn octal_language(
    lang: Language,
    mark: int,
) -> Language {
    |q: int, t: Seq<char>|
        if q == mark {
            t == seq!['0', 'o']
        } else if q == mark + 1 {
            is_octal(t)
        } else {
            lang(q, t)
        }
}

/// Whether `b` is `a` with the part for octal integers: two new states,
/// `mark`, to which `zero` leads on the letter `o`, and the state for the
/// digits.
pub open spec fn octal_steps(a: Dfa, b: Dfa, zero: int, mark: int) -> bool {
    &&& b@.len() == a@.len() + 2
    &&& mark == a@.len()
    &&& 0 < zero < a@.len()
    &&& forall|p: int, c: char|
        0 <= p < a@.len() ==> #[trigger] b.step(p, c) == (if p == zero && c == 'o' {
            Some(mark)
        } else {
            a.step(p, c)
        })
    &&& forall|c: char| #[trigger] b.step(mark, c) == (if is_octal_digit(c) {
            Some(mark + 1)
        } else {
            None
        })
    &&& forall|c: char| #[trigger] b.step(mark + 1, c) == (if is_octal_digit(c) || c == '_' {
            Some(mark + 1)
        } else {
            None
        })
    &&& forall|p: int| 0 <= p < a@.len() ==> #[trigger] b.accepting(p) == a.accepting(p)
    &&& b.accepting(mark) is None
    &&& b.accepting(mark + 1) == Some(TokenType::OctLiteral)
}

/// The automaton with the part for octal integers is sound.
pub proof fn lemma_octal_sound(
    a: Dfa,
    b: Dfa,
    lang: Language,
    zero: int,
    mark: int,
)
    requires
        sound(a, lang),
        b.wf(),
        octal_steps(a, b, zero, mark),
        forall|t: Seq<char>| #[trigger] lang(zero, t) ==> t == seq!['0'],
    ensures
        sound(b, octal_language(lang, mark)),
{
    let wider = octal_language(lang, mark);
    assert forall|q: int, c: char, t: Seq<char>|
        #![trigger wider(q, t), b.step(q, c)]
        0 <= q < b@.len() && wider(q, t) && b.step(q, c) is Some && !(q < a@.len() && lang(q, t)
            && a.step(q, c) == b.step(q, c)) implies wider(b.step(q, c).unwrap(), t.push(c)) by {
        if q == zero {
            assert(t.push(c) =~= seq!['0', c]);
        } else if q == mark {
            assert(t.push(c) =~= seq!['0', 'o', c]);
        } else {
            lemma_octal_push(t, c);
        }
    }
    lemma_sound_extended(a, b, lang, wider);
}

/// A binary integer with one more digit of its base or underscore is
/// a binary integer.
pub proof fn lemma_binary_push(t: Seq<char>, c: char)
    requires
        is_binary(t),
        is_binary_digit(c) || c == '_',
    ensures
        is_binary(t.push(c)),
{
    assert(t.push(c)[0] == t[0]);
    assert(t.push(c)[1] == t[1]);
    assert(t.push(c)[2] == t[2]);
    assert forall|i: int| 3 <= i < t.push(c).len() implies is_binary_digit(#[trigger] t.push(c)[i])
        || t.push(c)[i] == '_' by {
        if i < t.len() {
            assert(t.push(c)[i] == t[i]);
        }
    }
}

/// The description of the automaton with the part for binary integers:
/// `mark` is led to by `0b`, the state after it by the integers.
pub open spec fn binary_language(
    lang: Language,
    mark: int,
) -> Language {
    |q: int, t: Seq<char>|
        if q == mark {
            t == seq!['0', 'b']
        } else if q == mark + 1 {
            is_binary(t)
        } else {
            lang(q, t)
        }
}

/// Whether `b` is `a` with the part for binary integers: two new states,
/// `mark`, to which `zero` leads on the letter `b`, and the state for the
/// digits.
pub open spec fn binary_steps(a: Dfa, b: Dfa, zero: int, mark: int) -> bool {
    &&& b@.len() == a@.len() + 2
    &&& mark == a@.len()
    &&& 0 < zero < a@.len()
    &&& forall|p: int, c: char|
        0 <= p < a@.len() ==> #[trigger] b.step(p, c) == (if p == zero && c == 'b' {
            Some(mark)
        } else {
            a.step(p, c)
        })
    &&& forall|c: char| #[trigger] b.step(mark, c) == (if is_binary_digit(c) {
            Some(mark + 1)
        } else {
            None
        })
    &&& forall|c: char| #[trigger] b.step(mark + 1, c) == (if is_binary_digit(c) || c == '_' {
            Some(mark + 1)
        } else {
            None
        })
    &&& forall|p: int| 0 <= p < a@.len() ==> #[trigger] b.accepting(p) == a.accepting(p)
    &&& b.accepting(mark) is None
    &&& b.accepting(mark + 1) == Some(TokenType::BinLiteral)
}

/// The automaton with the part for binary integers is sound.
pub proof fn lemma_binary_sound(
    a: Dfa,
    b: Dfa,
    lang: Language,
    zero: int,
    mark: int,
)
    requires
        sound(a, lang),
        b.wf(),
        binary_steps(a, b, zero, mark),
        forall|t: Seq<char>| #[trigger] lang(zero, t) ==> t == seq!['0'],
    ensures
        sound(b, binary_language(lang, mark)),
{
    let wider = binary_language(lang, mark);
    assert forall|q: int, c: char, t: Seq<char>|
        #![trigger wider(q, t), b.step(q, c)]
        0 <= q < b@.len() && wider(q, t) && b.step(q, c) is Some && !(q < a@.len() && lang(q, t)
            && a.step(q, c) == b.step(q, c)) implies wider(b.step(q, c).unwrap(), t.push(c)) by {
        if q == zero {
            assert(t.push(c) =~= seq!['0', c]);
        } else if q == mark {
            assert(t.push(c) =~= seq!['0', 'b', c]);
        } else {
            lemma_binary_push(t, c);
        }
    }
    lemma_sound_extended(a, b, lang, wider);
}

/// Whether, from character `i` on, `text` is the inside of a string literal
/// that goes on: it is not closed, and its last character is not taken along
/// by a backslash that waits for it.
pub open spec fn string_goes_on(text: Seq<char>, i: int) -> bool
    decreases text.len() - i,
{
    if i < 0 || i > text.len() {
        false
    } else if i == text.len() {
        true
    } else if text[i] == '"' {
        false
    } else if text[i] == '\\' {
        i + 1 < text.len() && string_goes_on(text, i + 2)
    } else {
        string_goes_on(text, i + 1)
    }
}

/// Whether, from character `i` on, `text` is the inside of a string literal
/// that ends in a backslash which waits for the character to take along.
pub open spec fn string_waits(text: Seq<char>, i: int) -> bool
    decreases text.len() - i,
{
    if i < 0 || i >= text.len() {
        false
    } else if text[i] == '"' {
        false
    } else if text[i] == '\\' {
        i + 1 == text.len() || string_waits(text, i + 2)
    } else {
        string_waits(text, i + 1)
    }
}

/// What one more character makes of the inside of a string literal that
/// goes on: a quote closes it, a backslash waits, anything else goes on.
pub proof fn lemma_string_goes_on_push(t: Seq<char>, i: int, c: char)
    requires
        string_goes_on(t, i),
    ensures
        c == '"' ==> closes_string(t.push(c), i),
        c == '\\' ==> string_waits(t.push(c), i),
        c != '"' && c != '\\' ==> string_goes_on(t.push(c), i),
    decreases t.len() - i,
{
    let u = t.push(c);
    if i == t.len() {
        reveal_with_fuel(string_goes_on, 2);
        reveal_with_fuel(string_waits, 2);
        reveal_with_fuel(closes_string, 2);
    } else {
        assert(u[i] == t[i]);
        if t[i] == '\\' {
            lemma_string_goes_on_push(t, i + 2, c);
        } else {
            lemma_string_goes_on_push(t, i + 1, c);
        }
    }
}

/// The inside of a string literal that waits goes on with any character.
pub proof fn lemma_string_waits_push(t: Seq<char>, i: int, c: char)
    requires
        string_waits(t, i),
    ensures
        string_goes_on(t.push(c), i),
    decreases t.len() - i,
{
    let u = t.push(c);
    assert(u[i] == t[i]);
    if t[i] == '\\' {
        if i + 1 == t.len() {
            assert(u[i + 1] == c);
            reveal_with_fuel(string_goes_on, 2);
        } else {
            lemma_string_waits_push(t, i + 2, c);
        }
    } else {
        lemma_string_waits_push(t, i + 1, c);
    }
}

/// The description of the automaton with the string part: `inside` is led to
/// by open string literals, the next state by those that wait, the third by
/// string literals.
pub open spec fn string_language(
    lang: Language,
    inside: int,
) -> Language {
    |q: int, t: Seq<char>|
        if q == inside {
            t.len() >= 1 && t[0] == '"' && string_goes_on(t, 1)
        } else if q == inside + 1 {
            t.len() >= 1 && t[0] == '"' && string_waits(t, 1)
        } else if q == inside + 2 {
            is_string(t)
        } else {
            lang(q, t)
        }
}

/// Whether `b` is `a` with the string part: three new states from `inside`
/// on.
pub open spec fn string_steps(a: Dfa, b: Dfa, inside: int) -> bool {
    &&& b@.len() == a@.len() + 3
    &&& inside == a@.len()
    &&& forall|p: int, c: char|
        0 <= p < a@.len() ==> #[trigger] b.step(p, c) == (if p == 0 && c == '"' {
            Some(inside)
        } else {
            a.step(p, c)
        })
    &&& forall|c: char| #[trigger] b.step(inside, c) == (if c == '"' {
            Some(inside + 2)
        } else if c == '\\' {
            Some(inside + 1)
        } else {
            Some(inside)
        })
    &&& forall|c: char| #[trigger] b.step(inside + 1, c) == Some(inside)
    &&& forall|c: char| (#[trigger] b.step(inside + 2, c)) is None
    &&& forall|p: int| 0 <= p < a@.len() ==> #[trigger] b.accepting(p) == a.accepting(p)
    &&& b.accepting(inside) is None
    &&& b.accepting(inside + 1) is None
    &&& b.accepting(inside + 2) == Some(TokenType::StringLiteral)
}

/// The automaton with the string part is sound.
pub proof fn lemma_strings_sound(
    a: Dfa,
    b: Dfa,
    lang: Language,
    inside: int,
)
    requires
        sound(a, lang),
        b.wf(),
        string_steps(a, b, inside),
    ensures
        sound(b, string_language(lang, inside)),
{
    let wider = string_language(lang, inside);
    assert forall|q: int, c: char, t: Seq<char>|
        #![trigger wider(q, t), b.step(q, c)]
        0 <= q < b@.len() && wider(q, t) && b.step(q, c) is Some && !(q < a@.len() && lang(q, t)
            && a.step(q, c) == b.step(q, c)) implies wider(b.step(q, c).unwrap(), t.push(c)) by {
        let u = t.push(c);
        if q == 0 {
            assert(t.len() == 0);
            assert(u =~= seq![c]);
            reveal_with_fuel(string_goes_on, 2);
        } else if q == inside {
            assert(u[0] == t[0]);
            lemma_string_goes_on_push(t, 1, c);
        } else {
            assert(u[0] == t[0]);
            lemma_string_waits_push(t, 1, c);
        }
    }
    lemma_sound_extended(a, b, lang, wider);
}

/// A label with one more character an identifier may go on with is a label.
pub proof fn lemma_label_push(t: Seq<char>, c: char)
    requires
        is_label(t),
        is_identifier_char(c),
    ensures
        is_label(t.push(c)),
{
    assert(t.push(c)[0] == t[0]);
    assert(t.push(c)[1] == t[1]);
    assert forall|i: int| 2 <= i < t.push(c).len() implies is_identifier_char(
        #[trigger] t.push(c)[i],
    ) by {
        if i < t.len() {
            assert(t.push(c)[i] == t[i]);
        }
    }
}

/// The description of the automaton with the part for character literals
/// and labels. The six new states are, from `opened` on: after the quote,
/// after a backslash, after the one character of a literal, after the
/// closing quote, after the first character of a label, and in a label.
pub open spec fn quote_language(
    lang: Language,
    opened: int,
) -> Language {
    |q: int, t: Seq<char>|
        if q == opened {
            t == seq!['\'']
        } else if q == opened + 1 {
            t == seq!['\'', '\\']
        } else if q == opened + 2 {
            ||| t.len() == 2 && t[0] == '\'' && t[1] != '\\' && t[1] != '\''
            ||| t.len() == 3 && t[0] == '\'' && t[1] == '\\'
        } else if q == opened + 3 {
            is_char_literal(t)
        } else if q == opened + 4 {
            t.len() == 2 && is_label(t)
        } else if q == opened + 5 {
            is_label(t)
        } else {
            lang(q, t)
        }
}

/// Whether `b` is `a` with the part for character literals and labels: six
/// new states from `opened` on, in the order of [`quote_language`].
pub open spec fn quote_steps(a: Dfa, b: Dfa, opened: int) -> bool {
    &&& b@.len() == a@.len() + 6
    &&& opened == a@.len()
    &&& forall|p: int, c: char|
        0 <= p < a@.len() ==> #[trigger] b.step(p, c) == (if p == 0 && c == '\'' {
            Some(opened)
        } else {
            a.step(p, c)
        })
    &&& forall|c: char| #[trigger] b.step(opened, c) == (if c == '\\' {
            Some(opened + 1)
        } else if is_identifier_start(c) {
            Some(opened + 4)
        } else if c != '\'' {
            Some(opened + 2)
        } else {
            None
        })
    &&& forall|c: char| #[trigger] b.step(opened + 1, c) == Some(opened + 2)
    &&& forall|c: char| #[trigger] b.step(opened + 2, c) == (if c == '\'' {
            Some(opened + 3)
        } else {
            None
        })
    &&& forall|c: char| (#[trigger] b.step(opened + 3, c)) is None
    &&& forall|c: char| #[trigger] b.step(opened + 4, c) == (if c == '\'' {
            Some(opened + 3)
        } else if is_identifier_char(c) {
            Some(opened + 5)
        } else {
            None
        })
    &&& forall|c: char| #[trigger] b.step(opened + 5, c) == (if is_identifier_char(c) {
            Some(opened + 5)
        } else {
            None
        })
    &&& forall|p: int| 0 <= p < a@.len() ==> #[trigger] b.accepting(p) == a.accepting(p)
    &&& b.accepting(opened) is None
    &&& b.accepting(opened + 1) is None
    &&& b.accepting(opened + 2) is None
    &&& b.accepting(opened + 3) == Some(TokenType::CharLiteral)
    &&& b.accepting(opened + 4) == Some(TokenType::Label)
    &&& b.accepting(opened + 5) == Some(TokenType::Label)
}

/// The automaton with the part for character literals and labels is sound.
pub proof fn lemma_quotes_sound(
    a: Dfa,
    b: Dfa,
    lang: Language,
    opened: int,
)
    requires
        sound(a, lang),
        b.wf(),
        quote_steps(a, b, opened),
    ensures
        sound(b, quote_language(lang, opened)),
{
    let wider = quote_language(lang, opened);
    assert forall|q: int, c: char, t: Seq<char>|
        #![trigger wider(q, t), b.step(q, c)]
        0 <= q < b@.len() && wider(q, t) && b.step(q, c) is Some && !(q < a@.len() && lang(q, t)
            && a.step(q, c) == b.step(q, c)) implies wider(b.step(q, c).unwrap(), t.push(c)) by {
        let u = t.push(c);
        if q == 0 {
            assert(t.len() == 0);
            assert(u =~= seq![c]);
        } else if q == opened {
            assert(u =~= seq!['\'', c]);
        } else if q == opened + 1 {
            assert(u =~= seq!['\'', '\\', c]);
        } else if q == opened + 2 {
            assert(u[0] == t[0] && u[1] == t[1]);
            if t.len() == 3 {
                assert(u[3] == c);
            } else {
                assert(u[2] == c);
            }
        } else if q == opened + 4 {
            assert(u[0] == t[0] && u[1] == t[1] && u[2] == c);
            if c != '\'' {
                lemma_label_push(t, c);
            }
        } else {
            lemma_label_push(t, c);
        }
    }
    lemma_sound_extended(a, b, lang, wider);
}

} // verus!
