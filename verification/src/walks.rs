//! Facts about walks through automata: what a walk finds when the table
//! grows, when the text grows, and when the table is a trie.

use crate::dfa::{extends, first_match, is_trie, spelled_by, Dfa, Edge, StateView};
use vstd::prelude::*;

verus! {

/// An edge found by `first_match` is one of the edges, and covers the
/// character.
pub proof fn lemma_first_match_is_edge(edges: Seq<Edge>, c: char)
    ensures
        first_match(edges, c) matches Some(t) ==> exists|e: int|
            0 <= e < edges.len() && (#[trigger] edges[e]).to == t && edges[e].covers(c),
    decreases edges.len(),
{
    if edges.len() > 0 && !edges[0].covers(c) {
        lemma_first_match_is_edge(edges.drop_first(), c);
        if let Some(t) = first_match(edges.drop_first(), c) {
            let e = choose|e: int|
                0 <= e < edges.drop_first().len() && (#[trigger] edges.drop_first()[e]).to == t
                    && edges.drop_first()[e].covers(c);
            assert(edges[e + 1].to == t && edges[e + 1].covers(c));
        }
    } else if edges.len() > 0 {
        assert(edges[0].to == first_match(edges, c).unwrap() && edges[0].covers(c));
    }
}

/// Edges added behind the others are consulted only when none of the others
/// covers the character.
pub proof fn lemma_first_match_push(edges: Seq<Edge>, edge: Edge, c: char)
    ensures
        first_match(edges, c) is Some ==> first_match(edges.push(edge), c) == first_match(edges, c),
        first_match(edges, c) is None && edge.covers(c) ==> first_match(edges.push(edge), c)
            == Some(edge.to as int),
        first_match(edges, c) is None && !edge.covers(c) ==> first_match(edges.push(edge), c)
            is None,
    decreases edges.len(),
{
    reveal_with_fuel(first_match, 2);
    if edges.len() == 0 {
        assert(edges.push(edge).drop_first() =~= edges);
    } else {
        assert(edges.push(edge).drop_first() =~= edges.drop_first().push(edge));
        lemma_first_match_push(edges.drop_first(), edge, c);
    }
}

/// A character that finds an edge among the first edges of a list finds the
/// same edge in the whole list.
pub proof fn lemma_first_match_prefix(edges: Seq<Edge>, n: int, c: char)
    requires
        0 <= n <= edges.len(),
        first_match(edges.take(n), c) is Some,
    ensures
        first_match(edges, c) == first_match(edges.take(n), c),
    decreases n,
{
    if n > 0 {
        assert(edges.take(n)[0] == edges[0]);
        if !edges[0].covers(c) {
            assert(edges.take(n).drop_first() =~= edges.drop_first().take(n - 1));
            lemma_first_match_prefix(edges.drop_first(), n - 1, c);
        }
    }
}

/// Every table keeps what it holds.
pub proof fn lemma_extends_refl(a: Seq<StateView>)
    ensures
        extends(a, a),
{
    assert forall|q: int| 0 <= q < a.len() implies a[q].edges.take(a[q].edges.len() as int)
        == (#[trigger] a[q]).edges by {
        assert(a[q].edges.take(a[q].edges.len() as int) =~= a[q].edges);
    }
}

/// Keeping is transitive.
pub proof fn lemma_extends_trans(a: Seq<StateView>, b: Seq<StateView>, c: Seq<StateView>)
    requires
        extends(a, b),
        extends(b, c),
    ensures
        extends(a, c),
{
    assert forall|q: int| 0 <= q < a.len() implies {
        &&& (#[trigger] a[q]).accept is Some ==> c[q].accept == a[q].accept
        &&& a[q].edges.len() <= c[q].edges.len()
        &&& c[q].edges.take(a[q].edges.len() as int) == a[q].edges
    } by {
        let _ = b[q];
        assert(c[q].edges.take(a[q].edges.len() as int) =~= c[q].edges.take(
            b[q].edges.len() as int,
        ).take(a[q].edges.len() as int));
    }
}

/// A walk through a well-formed automaton stays among its states.
pub proof fn lemma_walk_in_range(dfa: Dfa, text: Seq<char>, n: int)
    requires
        dfa.wf(),
    ensures
        dfa.state_after(text, n) matches Some(q) ==> 0 <= q < dfa@.len(),
    decreases n,
{
    if n > 0 {
        lemma_walk_in_range(dfa, text, n - 1);
        if let Some(p) = dfa.state_after(text, n - 1) {
            lemma_first_match_is_edge(dfa@[p].edges, text[n - 1]);
        }
    }
}

/// A walk through an automaton is the same walk through every automaton that
/// keeps what it holds, and what the first accepts with, the second accepts
/// with too.
pub proof fn lemma_extends_keeps_walk(a: Dfa, b: Dfa, text: Seq<char>, n: int)
    requires
        a.wf(),
        extends(a@, b@),
        a.state_after(text, n) is Some,
    ensures
        b.state_after(text, n) == a.state_after(text, n),
        a.accepts(text, n) ==> b.accepts(text, n) && b.category(text, n) == a.category(text, n),
    decreases n,
{
    lemma_walk_in_range(a, text, n);
    if n > 0 {
        lemma_extends_keeps_walk(a, b, text, n - 1);
        lemma_walk_in_range(a, text, n - 1);
        let p = a.state_after(text, n - 1).unwrap();
        let _ = a@[p];
        lemma_first_match_prefix(b@[p].edges, a@[p].edges.len() as int, text[n - 1]);
    }
    if let Some(q) = a.state_after(text, n) {
        let _ = a@[q];
    }
}

/// A walk over the first characters of a text is the walk over any text that
/// begins with the same characters.
pub proof fn lemma_walk_of_prefix(dfa: Dfa, a: Seq<char>, b: Seq<char>, n: int)
    requires
        0 <= n <= a.len(),
        n <= b.len(),
        a.take(n) == b.take(n),
    ensures
        dfa.state_after(a, n) == dfa.state_after(b, n),
    decreases n,
{
    if n > 0 {
        assert(a.take(n - 1) =~= a.take(n).take(n - 1));
        assert(b.take(n - 1) =~= b.take(n).take(n - 1));
        lemma_walk_of_prefix(dfa, a, b, n - 1);
        assert(a[n - 1] == a.take(n)[n - 1]);
        assert(b[n - 1] == b.take(n)[n - 1]);
    }
}

/// A walk that is among the states `inside` at one point, and reads only
/// characters of `class` from there on, stays among them, if every one of
/// them leads to one of them on every character of `class`.
pub proof fn lemma_walk_stays(
    dfa: Dfa,
    text: Seq<char>,
    from: int,
    to: int,
    inside: spec_fn(int) -> bool,
    class: spec_fn(char) -> bool,
)
    requires
        0 <= from <= to <= text.len(),
        dfa.state_after(text, from) matches Some(q) && inside(q),
        forall|i: int| from <= i < to ==> class(#[trigger] text[i]),
        forall|q: int, c: char|
            inside(q) && class(c) ==> (#[trigger] dfa.step(q, c) matches Some(r) && inside(r)),
    ensures
        dfa.state_after(text, to) matches Some(q) && inside(q),
    decreases to - from,
{
    if from < to {
        lemma_walk_stays(dfa, text, from, to - 1, inside, class);
    }
}

/// In a trie, the state reached over a text is the one that text names.
pub proof fn lemma_trie_walk(dfa: Dfa, labels: Seq<Seq<char>>, text: Seq<char>, n: int)
    requires
        spelled_by(dfa@, labels),
        0 <= n <= text.len(),
    ensures
        dfa.state_after(text, n) matches Some(q) ==> 0 <= q < dfa@.len() && labels[q] == text.take(
            n,
        ),
    decreases n,
{
    if n > 0 {
        lemma_trie_walk(dfa, labels, text, n - 1);
        if let Some(p) = dfa.state_after(text, n - 1) {
            let c = text[n - 1];
            lemma_first_match_is_edge(dfa@[p].edges, c);
            if let Some(q) = dfa.step(p, c) {
                let e = choose|e: int|
                    0 <= e < dfa@[p].edges.len() && (#[trigger] dfa@[p].edges[e]).to == q
                        && dfa@[p].edges[e].covers(c);
                assert(text.take(n) =~= text.take(n - 1).push(c));
            }
        }
    } else {
        assert(text.take(0) =~= Seq::<char>::empty());
    }
}

/// In a trie, two texts that lead to the same state are the same text.
pub proof fn lemma_trie_injective(dfa: Dfa, a: Seq<char>, b: Seq<char>)
    requires
        is_trie(dfa@),
        dfa.state_after(a, a.len() as int) is Some,
        dfa.state_after(a, a.len() as int) == dfa.state_after(b, b.len() as int),
    ensures
        a == b,
{
    let labels = choose|labels: Seq<Seq<char>>| spelled_by(dfa@, labels);
    lemma_trie_walk(dfa, labels, a, a.len() as int);
    lemma_trie_walk(dfa, labels, b, b.len() as int);
    assert(a.take(a.len() as int) =~= a);
    assert(b.take(b.len() as int) =~= b);
}

/// In a trie, only the empty text leads to the root.
pub proof fn lemma_trie_root(dfa: Dfa, text: Seq<char>, n: int)
    requires
        is_trie(dfa@),
        0 <= n <= text.len(),
        dfa.state_after(text, n) == Some(0int),
    ensures
        n == 0,
{
    let labels = choose|labels: Seq<Seq<char>>| spelled_by(dfa@, labels);
    lemma_trie_walk(dfa, labels, text, n);
    assert(text.take(n).len() == n);
}

/// The successor of a state of a well-formed automaton is one of its
/// states.
pub proof fn lemma_step_in_range(dfa: Dfa, q: int, c: char)
    requires
        dfa.wf(),
        0 <= q < dfa@.len(),
    ensures
        dfa.step(q, c) matches Some(r) ==> 0 <= r < dfa@.len(),
{
    lemma_first_match_is_edge(dfa@[q].edges, c);
}

/// A description of an automaton: for each state, of which texts it holds.
pub type Language = spec_fn(int, Seq<char>) -> bool;

/// Whether `lang` describes the automaton: it holds of the root and the
/// empty text, and where it holds of a state and a text, it holds of each
/// successor of the state and the text with the character that leads there.
pub open spec fn describes(dfa: Dfa, lang: Language) -> bool {
    &&& lang(0, Seq::<char>::empty())
    &&& forall|q: int, c: char, t: Seq<char>|
        #![trigger lang(q, t), dfa.step(q, c)]
        0 <= q < dfa@.len() && lang(q, t) && dfa.step(q, c) is Some ==> lang(
            dfa.step(q, c).unwrap(),
            t.push(c),
        )
}

/// What describes an automaton holds of every state and the text that leads
/// to it.
pub proof fn lemma_described_walk(
    dfa: Dfa,
    lang: Language,
    text: Seq<char>,
    n: int,
)
    requires
        dfa.wf(),
        describes(dfa, lang),
        0 <= n <= text.len(),
    ensures
        dfa.state_after(text, n) matches Some(q) ==> lang(q, text.take(n)),
    decreases n,
{
    if n == 0 {
        assert(text.take(0) =~= Seq::<char>::empty());
    } else {
        lemma_described_walk(dfa, lang, text, n - 1);
        lemma_walk_in_range(dfa, text, n - 1);
        if let Some(p) = dfa.state_after(text, n - 1) {
            assert(lang(p, text.take(n - 1)));
            assert(text.take(n) =~= text.take(n - 1).push(text[n - 1]));
        }
    }
}

/// The texts that lead to each state of an automaton.
pub open spec fn exact_language(dfa: Dfa) -> Language {
    |q: int, t: Seq<char>| dfa.state_after(t, t.len() as int) == Some(q)
}

/// The texts that lead to each state describe the automaton.
pub proof fn lemma_exact_language(dfa: Dfa)
    ensures
        describes(dfa, exact_language(dfa)),
{
    let lang = exact_language(dfa);
    assert forall|q: int, c: char, t: Seq<char>|
        #![trigger lang(q, t), dfa.step(q, c)]
        0 <= q < dfa@.len() && lang(q, t) && dfa.step(q, c) is Some implies lang(
        dfa.step(q, c).unwrap(),
        t.push(c),
    ) by {
        assert(t.push(c).take(t.len() as int) =~= t.take(t.len() as int));
        lemma_walk_of_prefix(dfa, t, t.push(c), t.len() as int);
    }
}

/// A description carries over to a grown automaton: `wider` describes `b` if
/// it holds wherever `lang`, which describes `a`, did, and is kept by every
/// transition of `b` that is not a transition of `a` from a state and text of
/// which `lang` holds.
pub proof fn lemma_describes_extended(
    a: Dfa,
    b: Dfa,
    lang: Language,
    wider: Language,
)
    requires
        a.wf(),
        describes(a, lang),
        a@.len() <= b@.len(),
        forall|q: int, t: Seq<char>| 0 <= q < a@.len() && #[trigger] lang(q, t) ==> wider(q, t),
        forall|q: int, c: char, t: Seq<char>|
            #![trigger wider(q, t), b.step(q, c)]
            0 <= q < b@.len() && wider(q, t) && b.step(q, c) is Some && !(q < a@.len() && lang(
                q,
                t,
            ) && a.step(q, c) == b.step(q, c)) ==> wider(b.step(q, c).unwrap(), t.push(c)),
    ensures
        describes(b, wider),
{
    assert forall|q: int, c: char, t: Seq<char>|
        #![trigger wider(q, t), b.step(q, c)]
        0 <= q < b@.len() && wider(q, t) && b.step(q, c) is Some implies wider(
        b.step(q, c).unwrap(),
        t.push(c),
    ) by {
        if q < a@.len() && lang(q, t) && a.step(q, c) == b.step(q, c) {
            lemma_step_in_range(a, q, c);
            assert(lang(a.step(q, c).unwrap(), t.push(c)));
        }
    }
}

} // verus!
