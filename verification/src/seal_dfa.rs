//! The automaton of the Seal language, built state by state, with the proof
//! that it accepts the tokens of the language.

use crate::dfa::{extends, is_trie, links, same_steps, spelled_by, Dfa, StateView};
use crate::grammar::{
    closes_string, comment_kind, is_binary, is_binary_digit, is_blank, is_blank_char,
    is_char_literal, is_decimal, is_digit, is_fraction, is_hex_digit, is_hexadecimal,
    is_identifier, is_identifier_char, is_identifier_start, is_label, is_line_comment, is_octal,
    is_octal_digit, is_scientific, is_string, is_symbol_char, is_token, lemma_comment_marks,
    lemma_symbol_facts, lemma_symbols_distinct, lemma_symbols_start_with_symbol_chars,
    symbol_entry, symbols, SYMBOL_COUNT,
};
use crate::soundness::{
    binary_language, binary_steps, comment_language, comment_steps, decimal_language,
    decimal_steps, hexadecimal_language, hexadecimal_steps, identifier_language,
    identifier_steps, lemma_binary_sound, lemma_comments_sound, lemma_decimals_sound,
    lemma_hexadecimal_sound, lemma_identifiers_sound, lemma_octal_sound, lemma_quotes_sound,
    lemma_sound_accepts_tokens, lemma_strings_sound, lemma_symbols_sound,
    lemma_whitespace_sound, octal_language, octal_steps, quote_language, quote_steps, sound,
    string_language, string_steps, whitespace_language, whitespace_steps,
};
use crate::token::TokenType;
use crate::walks::{
    exact_language, lemma_extends_keeps_walk, lemma_extends_refl, lemma_extends_trans,
    lemma_trie_injective, lemma_trie_root, lemma_trie_walk, lemma_walk_in_range,
    lemma_walk_of_prefix, lemma_walk_stays, Language,
};
use vstd::prelude::*;

verus! {

/// Every character lies between the least and the greatest.
proof fn lemma_char_range(c: char)
    ensures
        '\0' <= c <= '\u{10ffff}',
{
}

/// Adds a state.
fn state(dfa: &mut Dfa, accept: Option<TokenType>) -> (q: usize)
    requires
        old(dfa).wf(),
    ensures
        final(dfa).wf(),
        q == old(dfa)@.len(),
        final(dfa)@.len() == old(dfa)@.len() + 1,
        same_steps(*old(dfa), *final(dfa)),
        final(dfa).accepting(q as int) == accept,
        forall|c: char| (#[trigger] final(dfa).step(q as int, c)) is None,
        forall|base: Seq<StateView>| #[trigger]
            extends(base, old(dfa)@) ==> extends(base, final(dfa)@),
{
    let q = dfa.add_state(accept);
    proof {
        assert forall|base: Seq<StateView>| #[trigger] extends(base, old(dfa)@) implies extends(
            base,
            dfa@,
        ) by {
            lemma_extends_trans(base, old(dfa)@, dfa@);
        }
    }
    q
}

/// Adds an edge for the characters from `lo` to `hi`.
fn edge(dfa: &mut Dfa, from: usize, lo: char, hi: char, to: usize)
    requires
        old(dfa).wf(),
        from < old(dfa)@.len(),
        to < old(dfa)@.len(),
    ensures
        final(dfa).wf(),
        links(*old(dfa), *final(dfa), from as int, to as int, |c: char| lo <= c <= hi),
        forall|base: Seq<StateView>| #[trigger]
            extends(base, old(dfa)@) ==> extends(base, final(dfa)@),
{
    dfa.add_edge(from, lo, hi, to);
    proof {
        assert forall|base: Seq<StateView>| #[trigger] extends(base, old(dfa)@) implies extends(
            base,
            dfa@,
        ) by {
            lemma_extends_trans(base, old(dfa)@, dfa@);
        }
    }
}

/// Adds an edge for the one character `c`.
fn edge_on(dfa: &mut Dfa, from: usize, c: char, to: usize)
    requires
        old(dfa).wf(),
        from < old(dfa)@.len(),
        to < old(dfa)@.len(),
    ensures
        final(dfa).wf(),
        links(*old(dfa), *final(dfa), from as int, to as int, |d: char| d == c),
        forall|base: Seq<StateView>| #[trigger]
            extends(base, old(dfa)@) ==> extends(base, final(dfa)@),
{
    edge(dfa, from, c, c, to);
}

/// Edges for the decimal digits.
fn digit_edges(dfa: &mut Dfa, from: usize, to: usize)
    requires
        old(dfa).wf(),
        from < old(dfa)@.len(),
        to < old(dfa)@.len(),
    ensures
        final(dfa).wf(),
        links(*old(dfa), *final(dfa), from as int, to as int, |c: char| is_digit(c)),
        forall|base: Seq<StateView>| #[trigger]
            extends(base, old(dfa)@) ==> extends(base, final(dfa)@),
{
    edge(dfa, from, '0', '9', to);
}

/// Edges for the characters an identifier may begin with.
fn identifier_start_edges(dfa: &mut Dfa, from: usize, to: usize)
    requires
        old(dfa).wf(),
        from < old(dfa)@.len(),
        to < old(dfa)@.len(),
    ensures
        final(dfa).wf(),
        links(*old(dfa), *final(dfa), from as int, to as int, |c: char| is_identifier_start(c)),
        forall|base: Seq<StateView>| #[trigger]
            extends(base, old(dfa)@) ==> extends(base, final(dfa)@),
{
    edge(dfa, from, 'a', 'z', to);
    edge(dfa, from, 'A', 'Z', to);
    edge(dfa, from, '_', '_', to);
    edge(dfa, from, '\u{2600}', '\u{27bf}', to);
    edge(dfa, from, '\u{1f300}', '\u{1faff}', to);
}

/// Edges for the characters an identifier may go on with.
fn identifier_edges(dfa: &mut Dfa, from: usize, to: usize)
    requires
        old(dfa).wf(),
        from < old(dfa)@.len(),
        to < old(dfa)@.len(),
    ensures
        final(dfa).wf(),
        links(*old(dfa), *final(dfa), from as int, to as int, |c: char| is_identifier_char(c)),
        forall|base: Seq<StateView>| #[trigger]
            extends(base, old(dfa)@) ==> extends(base, final(dfa)@),
{
    identifier_start_edges(dfa, from, to);
    digit_edges(dfa, from, to);
}

/// Edges for every character but the line feed.
fn rest_of_line_edges(dfa: &mut Dfa, from: usize, to: usize)
    requires
        old(dfa).wf(),
        from < old(dfa)@.len(),
        to < old(dfa)@.len(),
    ensures
        final(dfa).wf(),
        links(*old(dfa), *final(dfa), from as int, to as int, |c: char| c != '\n'),
        forall|base: Seq<StateView>| #[trigger]
            extends(base, old(dfa)@) ==> extends(base, final(dfa)@),
{
    edge(dfa, from, '\0', '\t', to);
    let ghost middle = *dfa;
    edge(dfa, from, '\u{b}', '\u{10ffff}', to);
    proof {
        assert forall|p: int, c: char| 0 <= p < old(dfa)@.len() implies #[trigger] dfa.step(p, c)
            == (if p == from && old(dfa).step(p, c) is None && c != '\n' {
            Some(to as int)
        } else {
            old(dfa).step(p, c)
        }) by {
            lemma_char_range(c);
            let _ = middle.step(p, c);
        }
    }
}

/// Edges for every character.
fn any_edges(dfa: &mut Dfa, from: usize, to: usize)
    requires
        old(dfa).wf(),
        from < old(dfa)@.len(),
        to < old(dfa)@.len(),
    ensures
        final(dfa).wf(),
        links(*old(dfa), *final(dfa), from as int, to as int, |c: char| true),
        forall|base: Seq<StateView>| #[trigger]
            extends(base, old(dfa)@) ==> extends(base, final(dfa)@),
{
    edge(dfa, from, '\0', '\u{10ffff}', to);
    proof {
        assert forall|p: int, c: char| 0 <= p < old(dfa)@.len() implies #[trigger] dfa.step(p, c)
            == (if p == from && old(dfa).step(p, c) is None {
            Some(to as int)
        } else {
            old(dfa).step(p, c)
        }) by {
            lemma_char_range(c);
        }
    }
}

/// Edges for the whitespace characters.
fn whitespace_edges(dfa: &mut Dfa, from: usize, to: usize)
    requires
        old(dfa).wf(),
        from < old(dfa)@.len(),
        to < old(dfa)@.len(),
    ensures
        final(dfa).wf(),
        links(*old(dfa), *final(dfa), from as int, to as int, |c: char| is_blank_char(c)),
        forall|base: Seq<StateView>| #[trigger]
            extends(base, old(dfa)@) ==> extends(base, final(dfa)@),
{
    edge(dfa, from, ' ', ' ', to);
    edge(dfa, from, '\t', '\t', to);
    edge(dfa, from, '\n', '\n', to);
    edge(dfa, from, '\r', '\r', to);
}

/// Whether every accepting state of the automaton is where one of the first
/// `n` symbols of the table ends.
pub open spec fn marks_are_symbols(dfa: Dfa, n: int) -> bool {
    forall|q: int|
        0 <= q < dfa@.len() && (#[trigger] dfa@[q]).accept is Some ==> exists|j: int|
            0 <= j < n && dfa.state_after(
                #[trigger] symbols(j).0,
                symbols(j).0.len() as int,
            ) == Some(q)
}

/// Whether the root has a transition only on characters that begin one of
/// the first `n` symbols of the table.
pub open spec fn root_takes_symbols(dfa: Dfa, n: int) -> bool {
    forall|c: char| (#[trigger] dfa.step(0, c)) is Some ==> exists|j: int|
            0 <= j < n && (#[trigger] symbols(j)).0.len() >= 1 && symbols(j).0[0] == c
}

/// Whether state `q` lies on the path of one of the first `n` symbols of the
/// table.
pub open spec fn on_symbol_path(dfa: Dfa, q: int, n: int) -> bool {
    exists|j: int|
        0 <= j < n && #[trigger] dfa.passes(symbols(j).0, symbols(j).0.len() as int, q)
}

/// Whether every state but the root lies on the path of one of the first `n`
/// symbols of the table.
pub open spec fn states_are_on_paths(dfa: Dfa, n: int) -> bool {
    forall|q: int| 0 < q < dfa@.len() ==> #[trigger] on_symbol_path(dfa, q, n)
}

/// What adding entry `i` of the table keeps and brings: the symbols before
/// it are still accepted and it is too, every accepting state is where a
/// symbol ends, every state is on a symbol's path, and the root reads what
/// begins a symbol.
proof fn lemma_symbol_added(before: Dfa, after: Dfa, i: int, q: int)
    requires
        0 <= i < SYMBOL_COUNT,
        before.wf(),
        after.wf(),
        is_trie(after@),
        extends(before@, after@),
        forall|j: int| 0 <= j < i ==> before.recognizes(#[trigger] symbols(j).0, symbols(j).1),
        marks_are_symbols(before, i),
        root_takes_symbols(before, i),
        states_are_on_paths(before, i),
        after.state_after(symbols(i).0, symbols(i).0.len() as int) == Some(q),
        0 <= q < after@.len(),
        after.accepting(q) == (if q < before@.len() && before.accepting(q) is Some {
            before.accepting(q)
        } else {
            Some(symbols(i).1)
        }),
        forall|p: int|
            0 <= p < after@.len() && p != q ==> (#[trigger] after@[p]).accept == (if p
                < before@.len() {
                before@[p].accept
            } else {
                None
            }),
        forall|p: int, d: char|
            0 <= p < after@.len() && (#[trigger] after.step(p, d)) is Some ==> (p < before@.len()
                && before.step(p, d) == after.step(p, d)) || after.on_path(symbols(i).0, p, d),
        forall|p: int|
            before@.len() <= p < after@.len() ==> #[trigger] after.passes(
                symbols(i).0,
                symbols(i).0.len() as int,
                p,
            ),
    ensures
        forall|j: int| 0 <= j < i + 1 ==> after.recognizes(#[trigger] symbols(j).0, symbols(j).1),
        marks_are_symbols(after, i + 1),
        root_takes_symbols(after, i + 1),
        states_are_on_paths(after, i + 1),
{
    let text = symbols(i).0;
    lemma_symbols_distinct(i, i);
    if q < before@.len() && before@[q].accept is Some {
        let j = choose|j: int|
            0 <= j < i && before.state_after(
                #[trigger] symbols(j).0,
                symbols(j).0.len() as int,
            ) == Some(q);
        lemma_extends_keeps_walk(before, after, symbols(j).0, symbols(j).0.len() as int);
        lemma_trie_injective(after, symbols(j).0, text);
        lemma_symbols_distinct(j, i);
    }
    assert(after.recognizes(text, symbols(i).1));
    assert forall|j: int| 0 <= j < i + 1 implies after.recognizes(
        #[trigger] symbols(j).0,
        symbols(j).1,
    ) by {
        if j < i {
            lemma_extends_keeps_walk(before, after, symbols(j).0, symbols(j).0.len() as int);
        }
    }
    assert forall|p: int|
        0 <= p < after@.len() && (#[trigger] after@[p]).accept is Some implies exists|j: int|
        0 <= j < i + 1 && after.state_after(#[trigger] symbols(j).0, symbols(j).0.len() as int)
            == Some(p) by {
        if p == q {
            assert(after.state_after(symbols(i).0, symbols(i).0.len() as int) == Some(p));
        } else {
            assert(p < before@.len() && before@[p].accept is Some);
            let j = choose|j: int|
                0 <= j < i && before.state_after(
                    #[trigger] symbols(j).0,
                    symbols(j).0.len() as int,
                ) == Some(p);
            lemma_extends_keeps_walk(before, after, symbols(j).0, symbols(j).0.len() as int);
        }
    }
    assert forall|c: char| (#[trigger] after.step(0, c)) is Some implies exists|j: int|
        0 <= j < i + 1 && (#[trigger] symbols(j)).0.len() >= 1 && symbols(j).0[0] == c by {
        if before.step(0, c) == after.step(0, c) {
            let j = choose|j: int|
                0 <= j < i && (#[trigger] symbols(j)).0.len() >= 1 && symbols(j).0[0] == c;
            assert(0 <= j < i + 1 && symbols(j).0.len() >= 1 && symbols(j).0[0] == c);
        } else {
            assert(after.on_path(text, 0, c));
            let k = choose|k: int|
                0 <= k < text.len() && #[trigger] after.state_after(text, k) == Some(0int)
                    && text[k] == c;
            lemma_trie_root(after, text, k);
            assert(symbols(i).0.len() >= 1 && symbols(i).0[0] == c);
        }
    }
    assert forall|p: int| 0 < p < after@.len() implies #[trigger] on_symbol_path(
        after,
        p,
        i + 1,
    ) by {
        if p < before@.len() {
            assert(on_symbol_path(before, p, i));
            let j = choose|j: int|
                0 <= j < i && #[trigger] before.passes(symbols(j).0, symbols(j).0.len() as int, p);
            let k = choose|k: int|
                0 <= k <= symbols(j).0.len() && #[trigger] before.state_after(symbols(j).0, k)
                    == Some(p);
            lemma_extends_keeps_walk(before, after, symbols(j).0, k);
            assert(after.passes(symbols(j).0, symbols(j).0.len() as int, p));
        } else {
            assert(after.passes(symbols(i).0, symbols(i).0.len() as int, p));
        }
    }
}

/// The symbols of the table, added to an automaton that has only its root,
/// which does not accept.
fn add_symbols(dfa: &mut Dfa)
    requires
        old(dfa).wf(),
        is_trie(old(dfa)@),
        old(dfa)@.len() == 1,
        old(dfa)@[0].accept is None,
        forall|c: char| (#[trigger] old(dfa).step(0, c)) is None,
    ensures
        final(dfa).wf(),
        is_trie(final(dfa)@),
        forall|j: int|
            0 <= j < SYMBOL_COUNT ==> final(dfa).recognizes(#[trigger] symbols(j).0, symbols(j).1),
        marks_are_symbols(*final(dfa), SYMBOL_COUNT as int),
        root_takes_symbols(*final(dfa), SYMBOL_COUNT as int),
        states_are_on_paths(*final(dfa), SYMBOL_COUNT as int),
{
    let mut i: usize = 0;
    while i < SYMBOL_COUNT
        invariant
            i <= SYMBOL_COUNT,
            dfa.wf(),
            is_trie(dfa@),
            forall|j: int| 0 <= j < i ==> dfa.recognizes(#[trigger] symbols(j).0, symbols(j).1),
            marks_are_symbols(*dfa, i as int),
            root_takes_symbols(*dfa, i as int),
            states_are_on_paths(*dfa, i as int),
        decreases SYMBOL_COUNT - i,
    {
        let ghost before = *dfa;
        let (text, kind) = symbol_entry(i);
        let q = dfa.add_literal(text, kind);
        proof {
            lemma_symbol_added(before, *dfa, i as int, q as int);
        }
        i += 1;
    }
}

/// In the automaton of the symbols, the marks that open a comment are
/// spelled out from the root.
proof fn lemma_comment_marks_spelled(dfa: Dfa)
    requires
        dfa.wf(),
        forall|j: int|
            0 <= j < SYMBOL_COUNT ==> dfa.recognizes(#[trigger] symbols(j).0, symbols(j).1),
    ensures
        dfa.step(0, '/') matches Some(slash) && 0 <= slash < dfa@.len() && (dfa.step(slash, '/')
            matches Some(opened) && 0 <= opened < dfa@.len() && dfa.step(opened, '/') is Some
            && dfa.step(opened, '!') is Some),
{
    lemma_comment_marks();
    let doc = symbols(51).0;
    let module_doc = symbols(52).0;
    assert(dfa.recognizes(doc, symbols(51).1));
    assert(dfa.recognizes(module_doc, symbols(52).1));
    reveal_with_fuel(Dfa::state_after, 4);
    lemma_walk_in_range(dfa, doc, 1);
    lemma_walk_in_range(dfa, doc, 2);
    assert(dfa.state_after(doc, 3) is Some);
    assert(dfa.state_after(module_doc, 3) is Some);
}

/// The states of the comment marks in the automaton of the symbols: each
/// accepts with its category, they differ from each other and from the root,
/// the state after two slashes goes on only with a third slash or an
/// exclamation mark, and the states after those go nowhere.
proof fn lemma_comment_states(dfa: Dfa, slash: int, opened: int, doc: int, module_doc: int)
    requires
        dfa.wf(),
        is_trie(dfa@),
        forall|j: int|
            0 <= j < SYMBOL_COUNT ==> dfa.recognizes(#[trigger] symbols(j).0, symbols(j).1),
        states_are_on_paths(dfa, SYMBOL_COUNT as int),
        dfa.step(0, '/') == Some(slash),
        dfa.step(slash, '/') == Some(opened),
        dfa.step(opened, '/') == Some(doc),
        dfa.step(opened, '!') == Some(module_doc),
    ensures
        dfa.accepting(opened) == Some(TokenType::Comment),
        dfa.accepting(doc) == Some(TokenType::DocComment),
        dfa.accepting(module_doc) == Some(TokenType::ModuleDocComment),
        0 < opened < dfa@.len(),
        0 < doc < dfa@.len(),
        0 < module_doc < dfa@.len(),
        opened != doc,
        opened != module_doc,
        doc != module_doc,
        forall|c: char| (#[trigger] dfa.step(opened, c)) is Some ==> c == '/' || c == '!',
        forall|c: char| (#[trigger] dfa.step(doc, c)) is None,
        forall|c: char| (#[trigger] dfa.step(module_doc, c)) is None,
        forall|t: Seq<char>|
            #[trigger] dfa.state_after(t, t.len() as int) == Some(opened) ==> t == seq!['/', '/'],
        forall|t: Seq<char>|
            #[trigger] dfa.state_after(t, t.len() as int) == Some(doc) ==> t == seq![
                '/',
                '/',
                '/',
            ],
        forall|t: Seq<char>|
            #[trigger] dfa.state_after(t, t.len() as int) == Some(module_doc) ==> t == seq![
                '/',
                '/',
                '!',
            ],
{
    lemma_comment_marks();
    let two = symbols(50).0;
    let three = symbols(51).0;
    let bang = symbols(52).0;
    assert(dfa.recognizes(two, symbols(50).1));
    assert(dfa.recognizes(three, symbols(51).1));
    assert(dfa.recognizes(bang, symbols(52).1));
    reveal_with_fuel(Dfa::state_after, 4);
    assert(dfa.state_after(two, 2) == Some(opened));
    assert(dfa.state_after(three, 3) == Some(doc));
    assert(dfa.state_after(bang, 3) == Some(module_doc));
    let labels = choose|labels: Seq<Seq<char>>| spelled_by(dfa@, labels);
    lemma_trie_walk(dfa, labels, two, 2);
    lemma_trie_walk(dfa, labels, three, 3);
    lemma_trie_walk(dfa, labels, bang, 3);
    assert(two.take(2) =~= two);
    assert(three.take(3) =~= three);
    assert(bang.take(3) =~= bang);
    assert(labels[0].len() == 0);
    assert forall|c: char| (#[trigger] dfa.step(opened, c)) is Some implies c == '/' || c
        == '!' by {
        lemma_no_stray_state(dfa, labels, two, c);
    }
    assert forall|c: char| (#[trigger] dfa.step(doc, c)) is None by {
        if dfa.step(doc, c) is Some {
            lemma_no_stray_state(dfa, labels, three, c);
        }
    }
    assert forall|c: char| (#[trigger] dfa.step(module_doc, c)) is None by {
        if dfa.step(module_doc, c) is Some {
            lemma_no_stray_state(dfa, labels, bang, c);
        }
    }
    assert forall|t: Seq<char>| #[trigger]
        dfa.state_after(t, t.len() as int) == Some(opened) implies t == two by {
        lemma_trie_injective(dfa, t, two);
    }
    assert forall|t: Seq<char>| #[trigger]
        dfa.state_after(t, t.len() as int) == Some(doc) implies t == three by {
        lemma_trie_injective(dfa, t, three);
    }
    assert forall|t: Seq<char>| #[trigger]
        dfa.state_after(t, t.len() as int) == Some(module_doc) implies t == bang by {
        lemma_trie_injective(dfa, t, bang);
    }
}

/// In the automaton of the symbols, a transition from the state of a text
/// that begins with two slashes leads to the state of a comment mark of three
/// characters, so the text is two slashes and the character a slash or an
/// exclamation mark.
proof fn lemma_no_stray_state(dfa: Dfa, labels: Seq<Seq<char>>, text: Seq<char>, c: char)
    requires
        dfa.wf(),
        spelled_by(dfa@, labels),
        states_are_on_paths(dfa, SYMBOL_COUNT as int),
        text.len() >= 2,
        text[0] == '/',
        text[1] == '/',
        dfa.state_after(text, text.len() as int) matches Some(q) && dfa.step(q, c) is Some,
    ensures
        text.len() == 2,
        c == '/' || c == '!',
{
    let q = dfa.state_after(text, text.len() as int).unwrap();
    let t = dfa.step(q, c).unwrap();
    let longer = text.push(c);
    assert(longer.take(text.len() as int) =~= text.take(text.len() as int));
    lemma_walk_of_prefix(dfa, text, longer, text.len() as int);
    assert(dfa.state_after(longer, longer.len() as int) == Some(t));
    lemma_trie_walk(dfa, labels, longer, longer.len() as int);
    assert(longer.take(longer.len() as int) =~= longer);
    assert(labels[t] == longer);
    assert(t != 0);
    assert(on_symbol_path(dfa, t, SYMBOL_COUNT as int));
    let j = choose|j: int|
        0 <= j < SYMBOL_COUNT && #[trigger] dfa.passes(
            symbols(j).0,
            symbols(j).0.len() as int,
            t,
        );
    let k = choose|k: int|
        0 <= k <= symbols(j).0.len() && #[trigger] dfa.state_after(symbols(j).0, k) == Some(t);
    lemma_trie_walk(dfa, labels, symbols(j).0, k);
    assert(symbols(j).0.take(k) == longer);
    assert(symbols(j).0.take(k).len() == k);
    assert(symbols(j).0[0] == symbols(j).0.take(k)[0]);
    assert(symbols(j).0[1] == symbols(j).0.take(k)[1]);
    assert(symbols(j).0[2] == symbols(j).0.take(k)[2]);
    lemma_symbol_facts(j);
}

/// Whether the states named are the comment part of the automaton: from the
/// root two slashes lead to `opened`, a third slash to `doc`, an exclamation
/// mark to `module_doc`, and anything else on the line to `body`; the last
/// three take the rest of the line; and each accepts with its category.
spec fn reads_comments(
    dfa: Dfa,
    slash: int,
    opened: int,
    doc: int,
    module_doc: int,
    body: int,
) -> bool {
    &&& dfa.step(0, '/') == Some(slash)
    &&& dfa.step(slash, '/') == Some(opened)
    &&& dfa.step(opened, '/') == Some(doc)
    &&& dfa.step(opened, '!') == Some(module_doc)
    &&& forall|c: char|
        c != '\n' && c != '/' && c != '!' ==> #[trigger] dfa.step(opened, c) == Some(body)
    &&& forall|c: char| c != '\n' ==> #[trigger] dfa.step(body, c) == Some(body)
    &&& forall|c: char| c != '\n' ==> #[trigger] dfa.step(doc, c) == Some(doc)
    &&& forall|c: char| c != '\n' ==> #[trigger] dfa.step(module_doc, c) == Some(module_doc)
    &&& dfa.accepting(opened) == Some(TokenType::Comment)
    &&& dfa.accepting(body) == Some(TokenType::Comment)
    &&& dfa.accepting(doc) == Some(TokenType::DocComment)
    &&& dfa.accepting(module_doc) == Some(TokenType::ModuleDocComment)
}

/// An automaton with the comment part accepts every comment with its
/// category.
proof fn lemma_comment_recognized(
    dfa: Dfa,
    slash: int,
    opened: int,
    doc: int,
    module_doc: int,
    body: int,
    text: Seq<char>,
)
    requires
        reads_comments(dfa, slash, opened, doc, module_doc, body),
        is_line_comment(text),
    ensures
        dfa.recognizes(text, comment_kind(text)),
{
    reveal_with_fuel(Dfa::state_after, 4);
    assert(dfa.state_after(text, 2) == Some(opened));
    if text.len() >= 3 {
        let last = dfa.state_after(text, 3).unwrap();
        let rest = |c: char| c != '\n';
        assert(text[2] != '\n');
        lemma_walk_stays(dfa, text, 3, text.len() as int, |q: int| q == last, rest);
    }
}

/// Comments: after the marks that open them, the rest of the line.
fn add_comments(dfa: &mut Dfa) -> (lang: Ghost<Language>)
    requires
        old(dfa).wf(),
        is_trie(old(dfa)@),
        forall|j: int|
            0 <= j < SYMBOL_COUNT ==> old(dfa).recognizes(#[trigger] symbols(j).0, symbols(j).1),
        marks_are_symbols(*old(dfa), SYMBOL_COUNT as int),
        states_are_on_paths(*old(dfa), SYMBOL_COUNT as int),
    ensures
        final(dfa).wf(),
        sound(*final(dfa), lang@),
        forall|base: Seq<StateView>| #[trigger]
            extends(base, old(dfa)@) ==> extends(base, final(dfa)@),
        forall|c: char| #[trigger] final(dfa).step(0, c) == old(dfa).step(0, c),
        forall|text: Seq<char>| #[trigger]
            is_line_comment(text) ==> final(dfa).recognizes(text, comment_kind(text)),
{
    let root = dfa.root();
    proof {
        lemma_comment_marks_spelled(*dfa);
    }
    let slash = dfa.next(root, &'/').unwrap();
    let opened = dfa.next(slash, &'/').unwrap();
    let doc = dfa.next(opened, &'/').unwrap();
    let module_doc = dfa.next(opened, &'!').unwrap();
    proof {
        lemma_comment_states(*dfa, slash as int, opened as int, doc as int, module_doc as int);
    }
    let body = state(dfa, Some(TokenType::Comment));
    rest_of_line_edges(dfa, opened, body);
    rest_of_line_edges(dfa, body, body);
    rest_of_line_edges(dfa, doc, doc);
    rest_of_line_edges(dfa, module_doc, module_doc);
    proof {
        assert(reads_comments(
            *dfa,
            slash as int,
            opened as int,
            doc as int,
            module_doc as int,
            body as int,
        ));
        assert forall|text: Seq<char>| #[trigger] is_line_comment(text) implies dfa.recognizes(
            text,
            comment_kind(text),
        ) by {
            lemma_comment_recognized(
                *dfa,
                slash as int,
                opened as int,
                doc as int,
                module_doc as int,
                body as int,
                text,
            );
        }
        lemma_symbols_sound(*old(dfa));
        assert(comment_steps(
            *old(dfa),
            *dfa,
            opened as int,
            doc as int,
            module_doc as int,
            body as int,
        ));
        lemma_comments_sound(
            *old(dfa),
            *dfa,
            exact_language(*old(dfa)),
            opened as int,
            doc as int,
            module_doc as int,
            body as int,
        );
    }
    Ghost(comment_language(exact_language(*old(dfa)), doc as int, module_doc as int, body as int))
}

/// Whitespace: a run of spaces, tabs, carriage returns and line feeds.
fn add_whitespace(dfa: &mut Dfa, Ghost(before): Ghost<Language>) -> (lang: Ghost<Language>)
    requires
        old(dfa).wf(),
        sound(*old(dfa), before),
        forall|c: char| is_blank_char(c) ==> (#[trigger] old(dfa).step(0, c)) is None,
    ensures
        final(dfa).wf(),
        sound(*final(dfa), lang@),
        forall|base: Seq<StateView>| #[trigger]
            extends(base, old(dfa)@) ==> extends(base, final(dfa)@),
        forall|c: char|
            (#[trigger] final(dfa).step(0, c)) is Some ==> old(dfa).step(0, c) is Some
                || is_blank_char(c),
        forall|text: Seq<char>| #[trigger]
            is_blank(text) ==> final(dfa).recognizes(text, TokenType::Whitespace),
{
    let root = dfa.root();
    let blank = state(dfa, Some(TokenType::Whitespace));
    whitespace_edges(dfa, root, blank);
    whitespace_edges(dfa, blank, blank);
    proof {
        assert forall|c: char| is_blank_char(c) implies #[trigger] dfa.step(0, c) == Some(
            blank as int,
        ) && #[trigger] dfa.step(blank as int, c) == Some(blank as int) by {}
        assert forall|text: Seq<char>| #[trigger] is_blank(text) implies dfa.recognizes(
            text,
            TokenType::Whitespace,
        ) by {
            reveal_with_fuel(Dfa::state_after, 2);
            assert(is_blank_char(text[0]));
            lemma_walk_stays(
                *dfa,
                text,
                1,
                text.len() as int,
                |q: int| q == blank as int,
                |c: char| is_blank_char(c),
            );
        }
        assert(whitespace_steps(*old(dfa), *dfa, blank as int));
        lemma_whitespace_sound(*old(dfa), *dfa, before, blank as int);
    }
    Ghost(whitespace_language(before, blank as int))
}

/// Identifiers, and the operator `mod=`, which begins like one.
fn add_identifiers(dfa: &mut Dfa, Ghost(before): Ghost<Language>) -> (lang: Ghost<Language>)
    requires
        old(dfa).wf(),
        sound(*old(dfa), before),
        forall|c: char| is_identifier_start(c) ==> (#[trigger] old(dfa).step(0, c)) is None,
    ensures
        final(dfa).wf(),
        sound(*final(dfa), lang@),
        forall|base: Seq<StateView>| #[trigger]
            extends(base, old(dfa)@) ==> extends(base, final(dfa)@),
        forall|c: char|
            (#[trigger] final(dfa).step(0, c)) is Some ==> old(dfa).step(0, c) is Some
                || is_identifier_start(c),
        forall|text: Seq<char>| #[trigger]
            is_identifier(text) ==> final(dfa).recognizes(text, TokenType::Identifier),
        final(dfa).recognizes(seq!['m', 'o', 'd', '='], TokenType::ModAssign),
{
    let root = dfa.root();
    let word = state(dfa, Some(TokenType::Identifier));
    let m = state(dfa, Some(TokenType::Identifier));
    let mo = state(dfa, Some(TokenType::Identifier));
    let modulo = state(dfa, Some(TokenType::Identifier));
    let assign = state(dfa, Some(TokenType::ModAssign));
    edge_on(dfa, root, 'm', m);
    edge_on(dfa, m, 'o', mo);
    edge_on(dfa, mo, 'd', modulo);
    edge_on(dfa, modulo, '=', assign);
    identifier_start_edges(dfa, root, word);
    identifier_edges(dfa, m, word);
    identifier_edges(dfa, mo, word);
    identifier_edges(dfa, modulo, word);
    identifier_edges(dfa, word, word);
    proof {
        let inside = |q: int| q == word || q == m || q == mo || q == modulo;
        assert forall|c: char| is_identifier_start(c) implies (#[trigger] dfa.step(0, c)
            matches Some(q) && inside(q)) by {}
        assert forall|q: int, c: char| inside(q) && is_identifier_char(c) implies (
        #[trigger] dfa.step(q, c) matches Some(r) && inside(r)) by {}
        assert forall|text: Seq<char>| #[trigger] is_identifier(text) implies dfa.recognizes(
            text,
            TokenType::Identifier,
        ) by {
            reveal_with_fuel(Dfa::state_after, 2);
            lemma_walk_stays(
                *dfa,
                text,
                1,
                text.len() as int,
                inside,
                |c: char| is_identifier_char(c),
            );
        }
        let operator = seq!['m', 'o', 'd', '='];
        reveal_with_fuel(Dfa::state_after, 5);
        assert(dfa.state_after(operator, 4) == Some(assign as int));
        assert(identifier_steps(*old(dfa), *dfa, word as int));
        lemma_identifiers_sound(*old(dfa), *dfa, before, word as int);
    }
    Ghost(identifier_language(before, word as int))
}

/// Whether from state `q` the automaton has transitions on nothing but
/// digits, underscores, the point and the letter `e`.
spec fn reads_decimal_only(dfa: Dfa, q: int) -> bool {
    forall|c: char| (#[trigger] dfa.step(q, c)) is Some ==> is_digit(c) || c == '_' || c == '.'
            || c == 'e' || c == 'E'
}

/// Whether the states named are the decimal part of the automaton: from the
/// root a zero leads to `zero` and another digit to `whole`; digits and
/// underscores lead on to `whole`, a point from either to `point`, a digit
/// from there to `fraction`, where digits and underscores stay.
spec fn reads_decimals(dfa: Dfa, zero: int, whole: int, point: int, fraction: int) -> bool {
    &&& dfa.step(0, '0') == Some(zero)
    &&& forall|c: char| '1' <= c <= '9' ==> #[trigger] dfa.step(0, c) == Some(whole)
    &&& forall|c: char| is_digit(c) || c == '_' ==> #[trigger] dfa.step(zero, c) == Some(whole)
    &&& forall|c: char| is_digit(c) || c == '_' ==> #[trigger] dfa.step(whole, c) == Some(whole)
    &&& dfa.step(zero, '.') == Some(point)
    &&& dfa.step(whole, '.') == Some(point)
    &&& forall|c: char| is_digit(c) ==> #[trigger] dfa.step(point, c) == Some(fraction)
    &&& forall|c: char|
        is_digit(c) || c == '_' ==> #[trigger] dfa.step(fraction, c) == Some(fraction)
    &&& dfa.accepting(zero) == Some(TokenType::IntLiteral)
    &&& dfa.accepting(whole) == Some(TokenType::IntLiteral)
    &&& dfa.accepting(fraction) == Some(TokenType::FloatLiteral)
}

/// The walk over the first characters of a decimal integer ends in one of
/// the two states for integers.
proof fn lemma_decimal_walk(
    dfa: Dfa,
    zero: int,
    whole: int,
    point: int,
    fraction: int,
    text: Seq<char>,
    n: int,
)
    requires
        reads_decimals(dfa, zero, whole, point, fraction),
        is_decimal(text),
        1 <= n <= text.len(),
    ensures
        dfa.state_after(text, n) matches Some(q) && (q == zero || q == whole),
{
    reveal_with_fuel(Dfa::state_after, 2);
    assert(text[0] == '0' || '1' <= text[0] <= '9');
    lemma_walk_stays(
        dfa,
        text,
        1,
        n,
        |q: int| q == zero || q == whole,
        |c: char| is_digit(c) || c == '_',
    );
}

/// The walk over a decimal fraction ends in the state for fractions.
proof fn lemma_fraction_walk(
    dfa: Dfa,
    zero: int,
    whole: int,
    point: int,
    fraction: int,
    text: Seq<char>,
    n: int,
)
    requires
        reads_decimals(dfa, zero, whole, point, fraction),
        is_fraction(text, n),
    ensures
        dfa.state_after(text, text.len() as int) == Some(fraction),
        dfa.recognizes(text, TokenType::FloatLiteral),
{
    assert(text.take(n).take(n) =~= text.take(n));
    lemma_decimal_walk(dfa, zero, whole, point, fraction, text.take(n), n);
    lemma_walk_of_prefix(dfa, text.take(n), text, n);
    reveal_with_fuel(Dfa::state_after, 3);
    assert(dfa.state_after(text, n + 2) == Some(fraction));
    lemma_walk_stays(
        dfa,
        text,
        n + 2,
        text.len() as int,
        |q: int| q == fraction,
        |c: char| is_digit(c) || c == '_',
    );
}

/// Whether the states named are the exponent part of the automaton: the
/// letter `e` leads from `zero`, `whole` and `fraction` to `mark`, a sign
/// from there to `sign`, and a digit from either to `exponent`, where digits
/// stay.
spec fn reads_exponents(
    dfa: Dfa,
    zero: int,
    whole: int,
    fraction: int,
    mark: int,
    sign: int,
    exponent: int,
) -> bool {
    &&& dfa.step(zero, 'e') == Some(mark)
    &&& dfa.step(zero, 'E') == Some(mark)
    &&& dfa.step(whole, 'e') == Some(mark)
    &&& dfa.step(whole, 'E') == Some(mark)
    &&& dfa.step(fraction, 'e') == Some(mark)
    &&& dfa.step(fraction, 'E') == Some(mark)
    &&& dfa.step(mark, '+') == Some(sign)
    &&& dfa.step(mark, '-') == Some(sign)
    &&& forall|c: char| is_digit(c) ==> #[trigger] dfa.step(mark, c) == Some(exponent)
    &&& forall|c: char| is_digit(c) ==> #[trigger] dfa.step(sign, c) == Some(exponent)
    &&& forall|c: char| is_digit(c) ==> #[trigger] dfa.step(exponent, c) == Some(exponent)
    &&& dfa.accepting(exponent) == Some(TokenType::FloatLiteral)
}

/// An automaton with the decimal and the exponent part accepts every number
/// with an exponent.
proof fn lemma_scientific_recognized(
    dfa: Dfa,
    zero: int,
    whole: int,
    point: int,
    fraction: int,
    mark: int,
    sign: int,
    exponent: int,
    text: Seq<char>,
    n: int,
)
    requires
        reads_decimals(dfa, zero, whole, point, fraction),
        reads_exponents(dfa, zero, whole, fraction, mark, sign, exponent),
        is_scientific(text, n),
    ensures
        dfa.recognizes(text, TokenType::FloatLiteral),
{
    let mantissa = text.take(n);
    assert(mantissa.take(n) =~= mantissa);
    if is_decimal(mantissa) {
        lemma_decimal_walk(dfa, zero, whole, point, fraction, mantissa, n);
    } else {
        let w = choose|w: int| is_fraction(mantissa, w);
        lemma_fraction_walk(dfa, zero, whole, point, fraction, mantissa, w);
    }
    lemma_walk_of_prefix(dfa, mantissa, text, n);
    reveal_with_fuel(Dfa::state_after, 4);
    assert(dfa.state_after(text, n + 1) == Some(mark));
    let digits = if text[n + 1] == '+' || text[n + 1] == '-' {
        n + 2
    } else {
        n + 1
    };
    assert(is_digit(text[digits]));
    assert(dfa.state_after(text, digits + 1) == Some(exponent));
    lemma_walk_stays(
        dfa,
        text,
        digits + 1,
        text.len() as int,
        |q: int| q == exponent,
        |c: char| is_digit(c),
    );
}

/// The exponent of a number: a state to be reached on the letter `e`, from
/// which an optional sign and digits follow. Returns that state, the state
/// after the sign and the state after the digits.
fn add_exponents(dfa: &mut Dfa) -> (r: (usize, usize, usize))
    requires
        old(dfa).wf(),
    ensures
        final(dfa).wf(),
        final(dfa)@.len() == old(dfa)@.len() + 3,
        r.0 == old(dfa)@.len(),
        r.1 == r.0 + 1,
        r.2 == r.0 + 2,
        same_steps(*old(dfa), *final(dfa)),
        forall|c: char| #[trigger] final(dfa).step(r.0 as int, c) == (if c == '+' || c == '-' {
                Some(r.1 as int)
            } else if is_digit(c) {
                Some(r.2 as int)
            } else {
                None
            }),
        forall|c: char| #[trigger] final(dfa).step(r.1 as int, c) == (if is_digit(c) {
                Some(r.2 as int)
            } else {
                None
            }),
        forall|c: char| #[trigger] final(dfa).step(r.2 as int, c) == (if is_digit(c) {
                Some(r.2 as int)
            } else {
                None
            }),
        final(dfa).accepting(r.0 as int) is None,
        final(dfa).accepting(r.1 as int) is None,
        final(dfa).accepting(r.2 as int) == Some(TokenType::FloatLiteral),
        forall|base: Seq<StateView>| #[trigger]
            extends(base, old(dfa)@) ==> extends(base, final(dfa)@),
{
    let mark = state(dfa, None);
    let sign = state(dfa, None);
    let exponent = state(dfa, Some(TokenType::FloatLiteral));
    edge_on(dfa, mark, '+', sign);
    edge_on(dfa, mark, '-', sign);
    digit_edges(dfa, mark, exponent);
    digit_edges(dfa, sign, exponent);
    digit_edges(dfa, exponent, exponent);
    (mark, sign, exponent)
}

/// Decimal integers and fractions. Returns the state reached on a zero.
fn add_decimals(dfa: &mut Dfa, Ghost(before): Ghost<Language>) -> (r: (usize, Ghost<Language>))
    requires
        old(dfa).wf(),
        sound(*old(dfa), before),
        forall|c: char| is_digit(c) ==> (#[trigger] old(dfa).step(0, c)) is None,
    ensures
        final(dfa).wf(),
        sound(*final(dfa), r.1@),
        forall|t: Seq<char>| #[trigger] r.1@(r.0 as int, t) ==> t == seq!['0'],
        final(dfa)@.len() >= old(dfa)@.len(),
        forall|base: Seq<StateView>| #[trigger]
            extends(base, old(dfa)@) ==> extends(base, final(dfa)@),
        forall|c: char|
            (#[trigger] final(dfa).step(0, c)) is Some ==> old(dfa).step(0, c) is Some || is_digit(
                c,
            ),
        0 < r.0 < final(dfa)@.len(),
        final(dfa).step(0, '0') == Some(r.0 as int),
        reads_decimal_only(*final(dfa), r.0 as int),
        forall|text: Seq<char>| #[trigger]
            is_decimal(text) ==> final(dfa).recognizes(text, TokenType::IntLiteral),
        forall|text: Seq<char>, whole: int| #[trigger]
            is_fraction(text, whole) ==> final(dfa).recognizes(text, TokenType::FloatLiteral),
        forall|text: Seq<char>, mantissa: int| #[trigger]
            is_scientific(text, mantissa) ==> final(dfa).recognizes(
                text,
                TokenType::FloatLiteral,
            ),
{
    let root = dfa.root();
    let (exponent_mark, sign, exponent) = add_exponents(dfa);
    let zero = state(dfa, Some(TokenType::IntLiteral));
    let whole = state(dfa, Some(TokenType::IntLiteral));
    let point = state(dfa, None);
    let fraction = state(dfa, Some(TokenType::FloatLiteral));
    edge_on(dfa, root, '0', zero);
    edge(dfa, root, '1', '9', whole);
    digit_edges(dfa, zero, whole);
    edge_on(dfa, zero, '_', whole);
    edge_on(dfa, zero, '.', point);
    edge_on(dfa, zero, 'e', exponent_mark);
    edge_on(dfa, zero, 'E', exponent_mark);
    digit_edges(dfa, whole, whole);
    edge_on(dfa, whole, '_', whole);
    edge_on(dfa, whole, '.', point);
    edge_on(dfa, whole, 'e', exponent_mark);
    edge_on(dfa, whole, 'E', exponent_mark);
    digit_edges(dfa, point, fraction);
    digit_edges(dfa, fraction, fraction);
    edge_on(dfa, fraction, '_', fraction);
    edge_on(dfa, fraction, 'e', exponent_mark);
    edge_on(dfa, fraction, 'E', exponent_mark);
    proof {
        assert(reads_decimals(*dfa, zero as int, whole as int, point as int, fraction as int));
        assert forall|text: Seq<char>| #[trigger] is_decimal(text) implies dfa.recognizes(
            text,
            TokenType::IntLiteral,
        ) by {
            lemma_decimal_walk(
                *dfa,
                zero as int,
                whole as int,
                point as int,
                fraction as int,
                text,
                text.len() as int,
            );
        }
        assert forall|text: Seq<char>, n: int| #[trigger]
            is_fraction(text, n) implies dfa.recognizes(
            text,
            TokenType::FloatLiteral,
        ) by {
            lemma_fraction_walk(
                *dfa,
                zero as int,
                whole as int,
                point as int,
                fraction as int,
                text,
                n,
            );
        }
        assert(reads_exponents(
            *dfa,
            zero as int,
            whole as int,
            fraction as int,
            exponent_mark as int,
            sign as int,
            exponent as int,
        ));
        assert forall|text: Seq<char>, n: int| #[trigger]
            is_scientific(text, n) implies dfa.recognizes(
            text,
            TokenType::FloatLiteral,
        ) by {
            lemma_scientific_recognized(
                *dfa,
                zero as int,
                whole as int,
                point as int,
                fraction as int,
                exponent_mark as int,
                sign as int,
                exponent as int,
                text,
                n,
            );
        }
        assert(decimal_steps(*old(dfa), *dfa, exponent_mark as int));
        lemma_decimals_sound(*old(dfa), *dfa, before, exponent_mark as int);
    }
    (zero, Ghost(decimal_language(before, exponent_mark as int)))
}

/// Hexadecimal integers, after the state `zero` reached on a zero.
fn add_hexadecimals(dfa: &mut Dfa, zero: usize, Ghost(before): Ghost<Language>) -> (lang: Ghost<
    Language,
>)
    requires
        old(dfa).wf(),
        sound(*old(dfa), before),
        forall|t: Seq<char>| #[trigger] before(zero as int, t) ==> t == seq!['0'],
        0 < zero < old(dfa)@.len(),
        old(dfa).step(0, '0') == Some(zero as int),
        old(dfa).step(zero as int, 'x') is None,
    ensures
        final(dfa).wf(),
        sound(*final(dfa), lang@),
        forall|t: Seq<char>| #[trigger] lang@(zero as int, t) ==> t == seq!['0'],
        final(dfa)@.len() >= old(dfa)@.len(),
        forall|base: Seq<StateView>| #[trigger]
            extends(base, old(dfa)@) ==> extends(base, final(dfa)@),
        forall|c: char| #[trigger] final(dfa).step(0, c) == old(dfa).step(0, c),
        forall|c: char| c != 'x' ==> #[trigger] final(dfa).step(zero as int, c) == old(dfa).step(
            zero as int,
            c,
        ),
        forall|text: Seq<char>| #[trigger]
            is_hexadecimal(text) ==> final(dfa).recognizes(text, TokenType::HexLiteral),
{
    let mark = state(dfa, None);
    let digits = state(dfa, Some(TokenType::HexLiteral));
    edge_on(dfa, zero, 'x', mark);
    digit_edges(dfa, mark, digits);
    edge(dfa, mark, 'a', 'f', digits);
    edge(dfa, mark, 'A', 'F', digits);
    digit_edges(dfa, digits, digits);
    edge(dfa, digits, 'a', 'f', digits);
    edge(dfa, digits, 'A', 'F', digits);
    edge_on(dfa, digits, '_', digits);
    proof {
        assert forall|c: char| is_hex_digit(c) implies #[trigger] dfa.step(mark as int, c)
            == Some(digits as int) by {}
        assert forall|c: char| is_hex_digit(c) || c == '_' implies #[trigger] dfa.step(
            digits as int,
            c,
        ) == Some(digits as int) by {}
        assert forall|text: Seq<char>| #[trigger] is_hexadecimal(text) implies dfa.recognizes(
            text,
            TokenType::HexLiteral,
        ) by {
            reveal_with_fuel(Dfa::state_after, 4);
            lemma_walk_stays(
                *dfa,
                text,
                3,
                text.len() as int,
                |q: int| q == digits as int,
                |c: char| is_hex_digit(c) || c == '_',
            );
        }
        assert(hexadecimal_steps(*old(dfa), *dfa, zero as int, mark as int));
        lemma_hexadecimal_sound(*old(dfa), *dfa, before, zero as int, mark as int);
    }
    Ghost(hexadecimal_language(before, mark as int))
}

/// Octal integers, after the state `zero` reached on a zero.
fn add_octals(dfa: &mut Dfa, zero: usize, Ghost(before): Ghost<Language>) -> (lang: Ghost<
    Language,
>)
    requires
        old(dfa).wf(),
        sound(*old(dfa), before),
        forall|t: Seq<char>| #[trigger] before(zero as int, t) ==> t == seq!['0'],
        0 < zero < old(dfa)@.len(),
        old(dfa).step(0, '0') == Some(zero as int),
        old(dfa).step(zero as int, 'o') is None,
    ensures
        final(dfa).wf(),
        sound(*final(dfa), lang@),
        forall|t: Seq<char>| #[trigger] lang@(zero as int, t) ==> t == seq!['0'],
        final(dfa)@.len() >= old(dfa)@.len(),
        forall|base: Seq<StateView>| #[trigger]
            extends(base, old(dfa)@) ==> extends(base, final(dfa)@),
        forall|c: char| #[trigger] final(dfa).step(0, c) == old(dfa).step(0, c),
        forall|c: char| c != 'o' ==> #[trigger] final(dfa).step(zero as int, c) == old(dfa).step(
            zero as int,
            c,
        ),
        forall|text: Seq<char>| #[trigger]
            is_octal(text) ==> final(dfa).recognizes(text, TokenType::OctLiteral),
{
    let mark = state(dfa, None);
    let digits = state(dfa, Some(TokenType::OctLiteral));
    edge_on(dfa, zero, 'o', mark);
    edge(dfa, mark, '0', '7', digits);
    edge(dfa, digits, '0', '7', digits);
    edge_on(dfa, digits, '_', digits);
    proof {
        assert forall|c: char| is_octal_digit(c) implies #[trigger] dfa.step(mark as int, c)
            == Some(digits as int) by {}
        assert forall|c: char| is_octal_digit(c) || c == '_' implies #[trigger] dfa.step(
            digits as int,
            c,
        ) == Some(digits as int) by {}
        assert forall|text: Seq<char>| #[trigger] is_octal(text) implies dfa.recognizes(
            text,
            TokenType::OctLiteral,
        ) by {
            reveal_with_fuel(Dfa::state_after, 4);
            lemma_walk_stays(
                *dfa,
                text,
                3,
                text.len() as int,
                |q: int| q == digits as int,
                |c: char| is_octal_digit(c) || c == '_',
            );
        }
        assert(octal_steps(*old(dfa), *dfa, zero as int, mark as int));
        lemma_octal_sound(*old(dfa), *dfa, before, zero as int, mark as int);
    }
    Ghost(octal_language(before, mark as int))
}

/// Binary integers, after the state `zero` reached on a zero.
fn add_binaries(dfa: &mut Dfa, zero: usize, Ghost(before): Ghost<Language>) -> (lang: Ghost<
    Language,
>)
    requires
        old(dfa).wf(),
        sound(*old(dfa), before),
        forall|t: Seq<char>| #[trigger] before(zero as int, t) ==> t == seq!['0'],
        0 < zero < old(dfa)@.len(),
        old(dfa).step(0, '0') == Some(zero as int),
        old(dfa).step(zero as int, 'b') is None,
    ensures
        final(dfa).wf(),
        sound(*final(dfa), lang@),
        forall|t: Seq<char>| #[trigger] lang@(zero as int, t) ==> t == seq!['0'],
        final(dfa)@.len() >= old(dfa)@.len(),
        forall|base: Seq<StateView>| #[trigger]
            extends(base, old(dfa)@) ==> extends(base, final(dfa)@),
        forall|c: char| #[trigger] final(dfa).step(0, c) == old(dfa).step(0, c),
        forall|c: char| c != 'b' ==> #[trigger] final(dfa).step(zero as int, c) == old(dfa).step(
            zero as int,
            c,
        ),
        forall|text: Seq<char>| #[trigger]
            is_binary(text) ==> final(dfa).recognizes(text, TokenType::BinLiteral),
{
    let mark = state(dfa, None);
    let digits = state(dfa, Some(TokenType::BinLiteral));
    edge_on(dfa, zero, 'b', mark);
    edge(dfa, mark, '0', '1', digits);
    edge(dfa, digits, '0', '1', digits);
    edge_on(dfa, digits, '_', digits);
    proof {
        assert forall|c: char| is_binary_digit(c) implies #[trigger] dfa.step(mark as int, c)
            == Some(digits as int) by {}
        assert forall|c: char| is_binary_digit(c) || c == '_' implies #[trigger] dfa.step(
            digits as int,
            c,
        ) == Some(digits as int) by {}
        assert forall|text: Seq<char>| #[trigger] is_binary(text) implies dfa.recognizes(
            text,
            TokenType::BinLiteral,
        ) by {
            reveal_with_fuel(Dfa::state_after, 4);
            lemma_walk_stays(
                *dfa,
                text,
                3,
                text.len() as int,
                |q: int| q == digits as int,
                |c: char| is_binary_digit(c) || c == '_',
            );
        }
        assert(binary_steps(*old(dfa), *dfa, zero as int, mark as int));
        lemma_binary_sound(*old(dfa), *dfa, before, zero as int, mark as int);
    }
    Ghost(binary_language(before, mark as int))
}

/// A walk that is inside a string literal ends where the literal is closed.
proof fn lemma_string_walk(dfa: Dfa, inside: int, escape: int, closed: int, text: Seq<char>, i: int)
    requires
        0 <= i,
        closes_string(text, i),
        dfa.state_after(text, i) == Some(inside),
        dfa.step(inside, '"') == Some(closed),
        dfa.step(inside, '\\') == Some(escape),
        forall|c: char| c != '"' && c != '\\' ==> #[trigger] dfa.step(inside, c) == Some(inside),
        forall|c: char| #[trigger] dfa.step(escape, c) == Some(inside),
    ensures
        dfa.state_after(text, text.len() as int) == Some(closed),
    decreases text.len() - i,
{
    reveal_with_fuel(Dfa::state_after, 3);
    if text[i] == '"' {
    } else if text[i] == '\\' {
        assert(i + 1 < text.len());
        lemma_string_walk(dfa, inside, escape, closed, text, i + 2);
    } else {
        lemma_string_walk(dfa, inside, escape, closed, text, i + 1);
    }
}

/// String literals.
fn add_strings(dfa: &mut Dfa, Ghost(before): Ghost<Language>) -> (lang: Ghost<Language>)
    requires
        old(dfa).wf(),
        sound(*old(dfa), before),
        old(dfa).step(0, '"') is None,
    ensures
        final(dfa).wf(),
        sound(*final(dfa), lang@),
        forall|base: Seq<StateView>| #[trigger]
            extends(base, old(dfa)@) ==> extends(base, final(dfa)@),
        forall|c: char|
            (#[trigger] final(dfa).step(0, c)) is Some ==> old(dfa).step(0, c) is Some || c == '"',
        forall|text: Seq<char>| #[trigger]
            is_string(text) ==> final(dfa).recognizes(text, TokenType::StringLiteral),
{
    let root = dfa.root();
    let inside = state(dfa, None);
    let escape = state(dfa, None);
    let closed = state(dfa, Some(TokenType::StringLiteral));
    edge_on(dfa, root, '"', inside);
    edge_on(dfa, inside, '"', closed);
    edge_on(dfa, inside, '\\', escape);
    any_edges(dfa, inside, inside);
    any_edges(dfa, escape, inside);
    proof {
        assert forall|c: char| c != '"' && c != '\\' implies #[trigger] dfa.step(inside as int, c)
            == Some(inside as int) by {}
        assert forall|c: char| #[trigger] dfa.step(escape as int, c) == Some(inside as int) by {}
        assert forall|text: Seq<char>| #[trigger] is_string(text) implies dfa.recognizes(
            text,
            TokenType::StringLiteral,
        ) by {
            reveal_with_fuel(Dfa::state_after, 2);
            lemma_string_walk(*dfa, inside as int, escape as int, closed as int, text, 1);
        }
        assert(string_steps(*old(dfa), *dfa, inside as int));
        lemma_strings_sound(*old(dfa), *dfa, before, inside as int);
    }
    Ghost(string_language(before, inside as int))
}

/// Character literals and labels, which both begin with a single quote.
fn add_quotes(dfa: &mut Dfa, Ghost(before): Ghost<Language>) -> (lang: Ghost<Language>)
    requires
        old(dfa).wf(),
        sound(*old(dfa), before),
        old(dfa).step(0, '\'') is None,
    ensures
        final(dfa).wf(),
        sound(*final(dfa), lang@),
        forall|base: Seq<StateView>| #[trigger]
            extends(base, old(dfa)@) ==> extends(base, final(dfa)@),
        forall|c: char|
            (#[trigger] final(dfa).step(0, c)) is Some ==> old(dfa).step(0, c) is Some || c
                == '\'',
        forall|text: Seq<char>| #[trigger]
            is_char_literal(text) ==> final(dfa).recognizes(text, TokenType::CharLiteral),
        forall|text: Seq<char>| #[trigger]
            is_label(text) ==> final(dfa).recognizes(text, TokenType::Label),
{
    let root = dfa.root();
    let opened = state(dfa, None);
    let escape = state(dfa, None);
    let full = state(dfa, None);
    let closed = state(dfa, Some(TokenType::CharLiteral));
    let short_label = state(dfa, Some(TokenType::Label));
    let label = state(dfa, Some(TokenType::Label));
    edge_on(dfa, root, '\'', opened);

    edge_on(dfa, opened, '\\', escape);
    identifier_start_edges(dfa, opened, short_label);
    edge(dfa, opened, '\0', '&', full);
    edge(dfa, opened, '(', '\u{10ffff}', full);

    any_edges(dfa, escape, full);
    edge_on(dfa, full, '\'', closed);

    edge_on(dfa, short_label, '\'', closed);
    identifier_edges(dfa, short_label, label);
    identifier_edges(dfa, label, label);
    proof {
        assert(dfa.step(0, '\'') == Some(opened as int));
        assert(dfa.step(opened as int, '\\') == Some(escape as int));
        assert forall|c: char| is_identifier_start(c) implies #[trigger] dfa.step(opened as int, c)
            == Some(short_label as int) by {}
        assert forall|c: char|
            c != '\\' && c != '\'' && !is_identifier_start(c) implies #[trigger] dfa.step(
            opened as int,
            c,
        ) == Some(full as int) by {
            lemma_char_range(c);
        }
        assert forall|c: char| #[trigger] dfa.step(escape as int, c) == Some(full as int) by {}
        assert(dfa.step(full as int, '\'') == Some(closed as int));
        assert(dfa.step(short_label as int, '\'') == Some(closed as int));
        assert forall|c: char| is_identifier_char(c) implies #[trigger] dfa.step(
            short_label as int,
            c,
        ) == Some(label as int) && #[trigger] dfa.step(label as int, c) == Some(label as int) by {}
        assert forall|text: Seq<char>| #[trigger] is_char_literal(text) implies dfa.recognizes(
            text,
            TokenType::CharLiteral,
        ) by {
            reveal_with_fuel(Dfa::state_after, 5);
        }
        assert forall|text: Seq<char>| #[trigger] is_label(text) implies dfa.recognizes(
            text,
            TokenType::Label,
        ) by {
            reveal_with_fuel(Dfa::state_after, 3);
            lemma_walk_stays(
                *dfa,
                text,
                2,
                text.len() as int,
                |q: int| q == short_label as int || q == label as int,
                |c: char| is_identifier_char(c),
            );
        }
        assert(quote_steps(*old(dfa), *dfa, opened as int));
        lemma_quotes_sound(*old(dfa), *dfa, before, opened as int);
    }
    Ghost(quote_language(before, opened as int))
}

/// Builds the automaton of the language: it accepts a text with a category
/// exactly if the text is a token of that category.
pub fn create_dfa() -> (dfa: Dfa)
    ensures
        dfa.wf(),
        forall|text: Seq<char>, kind: TokenType| #[trigger]
            dfa.recognizes(text, kind) <==> is_token(text, kind),
{
    let mut dfa = Dfa::new();
    add_symbols(&mut dfa);
    proof {
        assert forall|c: char| (#[trigger] dfa.step(0, c)) is Some implies is_symbol_char(c) by {
            lemma_symbols_start_with_symbol_chars(c);
        }
    }
    let ghost s1 = dfa;
    let lang = add_comments(&mut dfa);
    let ghost s2 = dfa;
    let lang = add_whitespace(&mut dfa, lang);
    let ghost s3 = dfa;
    let lang = add_identifiers(&mut dfa, lang);
    let ghost s4 = dfa;
    let (zero, lang) = add_decimals(&mut dfa, lang);
    let ghost s5 = dfa;
    let lang = add_hexadecimals(&mut dfa, zero, lang);
    let ghost s6 = dfa;
    let lang = add_octals(&mut dfa, zero, lang);
    let ghost s7 = dfa;
    let lang = add_binaries(&mut dfa, zero, lang);
    let ghost s8 = dfa;
    let lang = add_strings(&mut dfa, lang);
    let ghost s9 = dfa;
    let lang = add_quotes(&mut dfa, lang);
    proof {
        lemma_extends_refl(s1@);
        lemma_extends_refl(s2@);
        lemma_extends_refl(s3@);
        lemma_extends_refl(s4@);
        lemma_extends_refl(s5@);
        lemma_extends_refl(s6@);
        lemma_extends_refl(s7@);
        lemma_extends_refl(s8@);
        lemma_extends_refl(s9@);
        lemma_kept(s1, dfa);
        lemma_kept(s2, dfa);
        lemma_kept(s3, dfa);
        lemma_kept(s4, dfa);
        lemma_kept(s5, dfa);
        lemma_kept(s6, dfa);
        lemma_kept(s7, dfa);
        lemma_kept(s8, dfa);
        lemma_kept(s9, dfa);
        assert forall|text: Seq<char>, kind: TokenType| #[trigger]
            dfa.recognizes(text, kind) implies is_token(text, kind) by {
            lemma_sound_accepts_tokens(dfa, lang@, text, kind);
        }
        assert forall|text: Seq<char>, kind: TokenType| is_token(text, kind) implies #[trigger]
            dfa.recognizes(text, kind) by {
            lemma_token_accepted(s1, s2, s3, s4, s5, s6, s7, s8, s9, dfa, text, kind);
        }
    }
    dfa
}

/// A token is accepted by the stage of the construction that is for its
/// kind.
proof fn lemma_token_accepted(
    s1: Dfa,
    s2: Dfa,
    s3: Dfa,
    s4: Dfa,
    s5: Dfa,
    s6: Dfa,
    s7: Dfa,
    s8: Dfa,
    s9: Dfa,
    dfa: Dfa,
    text: Seq<char>,
    kind: TokenType,
)
    requires
        is_token(text, kind),
        forall|j: int|
            0 <= j < SYMBOL_COUNT ==> s1.recognizes(#[trigger] symbols(j).0, symbols(j).1),
        forall|t: Seq<char>| #[trigger] is_line_comment(t) ==> s2.recognizes(t, comment_kind(t)),
        forall|t: Seq<char>| #[trigger] is_blank(t) ==> s3.recognizes(t, TokenType::Whitespace),
        forall|t: Seq<char>| #[trigger]
            is_identifier(t) ==> s4.recognizes(t, TokenType::Identifier),
        s4.recognizes(seq!['m', 'o', 'd', '='], TokenType::ModAssign),
        forall|t: Seq<char>| #[trigger] is_decimal(t) ==> s5.recognizes(t, TokenType::IntLiteral),
        forall|t: Seq<char>, whole: int| #[trigger]
            is_fraction(t, whole) ==> s5.recognizes(t, TokenType::FloatLiteral),
        forall|t: Seq<char>, mantissa: int| #[trigger]
            is_scientific(t, mantissa) ==> s5.recognizes(t, TokenType::FloatLiteral),
        forall|t: Seq<char>| #[trigger]
            is_hexadecimal(t) ==> s6.recognizes(t, TokenType::HexLiteral),
        forall|t: Seq<char>| #[trigger] is_octal(t) ==> s7.recognizes(t, TokenType::OctLiteral),
        forall|t: Seq<char>| #[trigger] is_binary(t) ==> s8.recognizes(t, TokenType::BinLiteral),
        forall|t: Seq<char>| #[trigger] is_string(t) ==> s9.recognizes(t, TokenType::StringLiteral),
        forall|t: Seq<char>| #[trigger]
            is_char_literal(t) ==> dfa.recognizes(t, TokenType::CharLiteral),
        forall|t: Seq<char>| #[trigger] is_label(t) ==> dfa.recognizes(t, TokenType::Label),
        forall|t: Seq<char>, k: TokenType| #[trigger] s1.recognizes(t, k) ==> dfa.recognizes(t, k),
        forall|t: Seq<char>, k: TokenType| #[trigger] s2.recognizes(t, k) ==> dfa.recognizes(t, k),
        forall|t: Seq<char>, k: TokenType| #[trigger] s3.recognizes(t, k) ==> dfa.recognizes(t, k),
        forall|t: Seq<char>, k: TokenType| #[trigger] s4.recognizes(t, k) ==> dfa.recognizes(t, k),
        forall|t: Seq<char>, k: TokenType| #[trigger] s5.recognizes(t, k) ==> dfa.recognizes(t, k),
        forall|t: Seq<char>, k: TokenType| #[trigger] s6.recognizes(t, k) ==> dfa.recognizes(t, k),
        forall|t: Seq<char>, k: TokenType| #[trigger] s7.recognizes(t, k) ==> dfa.recognizes(t, k),
        forall|t: Seq<char>, k: TokenType| #[trigger] s8.recognizes(t, k) ==> dfa.recognizes(t, k),
        forall|t: Seq<char>, k: TokenType| #[trigger] s9.recognizes(t, k) ==> dfa.recognizes(t, k),
    ensures
        dfa.recognizes(text, kind),
{
    if exists|j: int| 0 <= j < SYMBOL_COUNT && #[trigger] symbols(j) == (text, kind) {
        let j = choose|j: int| 0 <= j < SYMBOL_COUNT && #[trigger] symbols(j) == (text, kind);
        assert(s1.recognizes(symbols(j).0, symbols(j).1));
    } else if text == seq!['m', 'o', 'd', '='] && kind == TokenType::ModAssign {
    } else if is_line_comment(text) && kind == comment_kind(text) {
        assert(s2.recognizes(text, kind));
    } else if is_blank(text) && kind == TokenType::Whitespace {
        assert(s3.recognizes(text, kind));
    } else if is_identifier(text) && kind == TokenType::Identifier {
        assert(s4.recognizes(text, kind));
    } else if is_decimal(text) && kind == TokenType::IntLiteral {
        assert(s5.recognizes(text, kind));
    } else if is_hexadecimal(text) && kind == TokenType::HexLiteral {
        assert(s6.recognizes(text, kind));
    } else if is_octal(text) && kind == TokenType::OctLiteral {
        assert(s7.recognizes(text, kind));
    } else if is_binary(text) && kind == TokenType::BinLiteral {
        assert(s8.recognizes(text, kind));
    } else if (exists|whole: int| is_fraction(text, whole)) && kind == TokenType::FloatLiteral {
        let whole = choose|whole: int| is_fraction(text, whole);
        assert(s5.recognizes(text, kind));
    } else if (exists|mantissa: int| is_scientific(text, mantissa)) && kind
        == TokenType::FloatLiteral {
        let mantissa = choose|mantissa: int| is_scientific(text, mantissa);
        assert(s5.recognizes(text, kind));
    } else if is_string(text) && kind == TokenType::StringLiteral {
        assert(s9.recognizes(text, kind));
    } else if is_char_literal(text) && kind == TokenType::CharLiteral {
    } else {
        assert(is_label(text) && kind == TokenType::Label);
    }
}

/// What a stage of the construction accepts, the finished automaton accepts.
proof fn lemma_kept(stage: Dfa, dfa: Dfa)
    requires
        stage.wf(),
        extends(stage@, dfa@),
    ensures
        forall|text: Seq<char>, kind: TokenType| #[trigger]
            stage.recognizes(text, kind) ==> dfa.recognizes(text, kind),
{
    assert forall|text: Seq<char>, kind: TokenType| #[trigger]
        stage.recognizes(text, kind) implies dfa.recognizes(text, kind) by {
        lemma_extends_keeps_walk(stage, dfa, text, text.len() as int);
    }
}

} // verus!
