//! A deterministic finite automaton over characters, held as a table.
//!
//! States are numbered from zero, the root. Each state may accept with a token
//! category and has an ordered list of edges, each covering an inclusive range
//! of characters; the first edge that covers a character decides where it
//! leads, so a state has at most one successor per character.

use crate::text::{byte_len, char_at, lemma_byte_len_prefix, lemma_byte_len_push, width_of};
use crate::token::TokenType;
use crate::walks::{
    lemma_extends_keeps_walk, lemma_extends_refl, lemma_extends_trans, lemma_first_match_push,
    lemma_walk_in_range,
};
use vstd::prelude::*;

verus! {

/// An edge: every character from `lo` to `hi`, both included, leads to state
/// `to`.
#[derive(Copy, Clone, Debug, PartialEq, Eq, Structural)]
pub struct Edge {
    pub lo: char,
    pub hi: char,
    pub to: usize,
}

impl Edge {
    /// Whether the edge covers `c`.
    pub open spec fn covers(self, c: char) -> bool {
        self.lo <= c <= self.hi
    }
}

/// One state of the table, as a mathematical value.
pub ghost struct StateView {
    pub accept: Option<TokenType>,
    pub edges: Seq<Edge>,
}

/// Where the first edge of `edges` that covers `c` leads, if any does.
pub open spec fn first_match(edges: Seq<Edge>, c: char) -> Option<int>
    decreases edges.len(),
{
    if edges.len() == 0 {
        None
    } else if edges[0].covers(c) {
        Some(edges[0].to as int)
    } else {
        first_match(edges.drop_first(), c)
    }
}

/// Whether every edge of every state leads to a state of the table, which has
/// at least its root.
pub open spec fn table_wf(table: Seq<StateView>) -> bool {
    &&& table.len() >= 1
    &&& forall|q: int, e: int|
        0 <= q < table.len() && 0 <= e < table[q].edges.len() ==> (#[trigger] table[q].edges[e]).to
            < table.len()
}

/// Whether the table `b` keeps what the table `a` holds: every state of `a`
/// is a state of `b` with the same edges in front of any new ones, and a
/// state that accepts in `a` accepts with the same category in `b`.
pub open spec fn extends(a: Seq<StateView>, b: Seq<StateView>) -> bool {
    &&& a.len() <= b.len()
    &&& forall|q: int|
        0 <= q < a.len() ==> {
            &&& (#[trigger] a[q]).accept is Some ==> b[q].accept == a[q].accept
            &&& a[q].edges.len() <= b[q].edges.len()
            &&& b[q].edges.take(a[q].edges.len() as int) == a[q].edges
        }
}

/// Whether `labels` names each state of the table by the text that leads to
/// it: the root by the empty text, and the target of each edge by its
/// source's text and the edge's one character.
pub open spec fn spelled_by(table: Seq<StateView>, labels: Seq<Seq<char>>) -> bool {
    &&& labels.len() == table.len()
    &&& table.len() > 0
    &&& labels[0] == Seq::<char>::empty()
    &&& forall|q: int, e: int|
        0 <= q < table.len() && 0 <= e < table[q].edges.len() ==> {
            let edge = #[trigger] table[q].edges[e];
            &&& edge.lo == edge.hi
            &&& edge.to < table.len()
            &&& labels[edge.to as int] == labels[q].push(edge.lo)
        }
}

/// Whether the table is a trie: every edge is for one character, and each
/// state is reached by one text only.
pub open spec fn is_trie(table: Seq<StateView>) -> bool {
    exists|labels: Seq<Seq<char>>| spelled_by(table, labels)
}

struct State {
    accept: Option<TokenType>,
    edges: Vec<Edge>,
}

impl View for State {
    type V = StateView;

    closed spec fn view(&self) -> StateView {
        StateView { accept: self.accept, edges: self.edges@ }
    }
}

/// The automaton.
pub struct Dfa {
    states: Vec<State>,
}

impl View for Dfa {
    type V = Seq<StateView>;

    closed spec fn view(&self) -> Seq<StateView> {
        self.table()
    }
}

impl Dfa {
    /// The table as a mathematical value: the states in order.
    #[verifier::opaque]
    closed spec fn table(&self) -> Seq<StateView> {
        Seq::new(self.states@.len(), |q: int| self.states@[q]@)
    }
}

/// Whether `b` has every state of `a`, with the same mark and the same
/// transitions.
pub open spec fn same_steps(a: Dfa, b: Dfa) -> bool {
    &&& a@.len() <= b@.len()
    &&& forall|p: int| 0 <= p < a@.len() ==> #[trigger] b.accepting(p) == a.accepting(p)
    &&& forall|p: int, c: char| 0 <= p < a@.len() ==> #[trigger] b.step(p, c) == a.step(p, c)
}

/// Whether `b` is `a` with one more way out of state `from`: on the
/// characters of `class` for which `from` had no transition, it now leads to
/// `to`; everything else is as it was.
pub open spec fn links(a: Dfa, b: Dfa, from: int, to: int, class: spec_fn(char) -> bool) -> bool {
    &&& b@.len() == a@.len()
    &&& forall|p: int| 0 <= p < a@.len() ==> #[trigger] b.accepting(p) == a.accepting(p)
    &&& forall|p: int, c: char|
        0 <= p < a@.len() ==> #[trigger] b.step(p, c) == (if p == from && a.step(p, c) is None
            && class(c) {
            Some(to)
        } else {
            a.step(p, c)
        })
}

impl Dfa {
    /// Whether the table is well formed: see [`table_wf`].
    pub open spec fn wf(&self) -> bool {
        table_wf(self@)
    }

    /// The successor of state `q` on character `c`, if there is one.
    pub open spec fn step(&self, q: int, c: char) -> Option<int> {
        first_match(self@[q].edges, c)
    }

    /// The category with which state `q` accepts, if it accepts.
    pub open spec fn accepting(&self, q: int) -> Option<TokenType> {
        self@[q].accept
    }

    /// The state reached from the root on the first `n` characters of `text`,
    /// if the automaton has a transition for each of them.
    pub open spec fn state_after(&self, text: Seq<char>, n: int) -> Option<int>
        decreases n,
    {
        if n <= 0 {
            Some(0)
        } else {
            match self.state_after(text, n - 1) {
                Some(q) => self.step(q, text[n - 1]),
                None => None,
            }
        }
    }

    /// Whether the first `n` characters of `text`, at least one, lead from the
    /// root to an accepting state.
    pub open spec fn accepts(&self, text: Seq<char>, n: int) -> bool {
        &&& 1 <= n <= text.len()
        &&& self.state_after(text, n) matches Some(q) && self.accepting(q) is Some
    }

    /// The category with which the first `n` characters of `text` are
    /// accepted.
    pub open spec fn category(&self, text: Seq<char>, n: int) -> TokenType
        recommends
            self.accepts(text, n),
    {
        self.accepting(self.state_after(text, n).unwrap()).unwrap()
    }

    /// Whether the walk over `text` leaves state `p` on character `c` at some
    /// point.
    pub open spec fn on_path(&self, text: Seq<char>, p: int, c: char) -> bool {
        exists|k: int|
            0 <= k < text.len() && #[trigger] self.state_after(text, k) == Some(p) && text[k] == c
    }

    /// Whether the walk over the first `bound` characters of `text` passes
    /// through state `p`.
    pub open spec fn passes(&self, text: Seq<char>, bound: int, p: int) -> bool {
        exists|j: int| 0 <= j <= bound && #[trigger] self.state_after(text, j) == Some(p)
    }

    /// Whether the automaton accepts the whole of `text`, with `kind`.
    pub open spec fn recognizes(&self, text: Seq<char>, kind: TokenType) -> bool {
        self.accepts(text, text.len() as int) && self.category(text, text.len() as int) == kind
    }

    /// The length of the longest accepted prefix of `text` of at most `n`
    /// characters, or zero if none is accepted.
    pub open spec fn longest_accept(&self, text: Seq<char>, n: int) -> int
        decreases n,
    {
        if n <= 0 {
            0
        } else if self.accepts(text, n) {
            n
        } else {
            self.longest_accept(text, n - 1)
        }
    }

    /// An automaton with a root that does not accept and has no edges.
    pub fn new() -> (dfa: Dfa)
        ensures
            dfa@ == seq![StateView { accept: None, edges: Seq::empty() }],
            dfa.wf(),
            is_trie(dfa@),
    {
        let mut states: Vec<State> = Vec::new();
        states.push(State { accept: None, edges: Vec::new() });
        let dfa = Dfa { states };
        reveal(Dfa::table);
        assert(dfa@ =~= seq![StateView { accept: None, edges: Seq::empty() }]);
        assert(spelled_by(dfa@, seq![Seq::<char>::empty()]));
        dfa
    }

    /// The number of states.
    pub fn len(&self) -> (n: usize)
        ensures
            n == self@.len(),
    {
        reveal(Dfa::table);
        self.states.len()
    }

    /// The state in which every walk begins.
    pub fn root(&self) -> (q: usize)
        ensures
            q == 0,
    {
        0
    }

    /// Adds a state without edges and returns its number.
    pub fn add_state(&mut self, accept: Option<TokenType>) -> (q: usize)
        ensures
            q == old(self)@.len(),
            final(self)@ == old(self)@.push(StateView { accept, edges: Seq::empty() }),
            old(self).wf() ==> final(self).wf(),
            extends(old(self)@, final(self)@),
            same_steps(*old(self), *final(self)),
            forall|c: char| final(self).step(q as int, c) is None,
    {
        let q = self.states.len();
        self.states.push(State { accept, edges: Vec::new() });
        proof {
            reveal(Dfa::table);
            assert(self@ =~= old(self)@.push(StateView { accept, edges: Seq::empty() }));
            lemma_extends_refl(old(self)@);
        }
        q
    }

    /// Sets the category with which state `q` accepts, or that it does not.
    pub fn set_accept(&mut self, q: usize, accept: Option<TokenType>)
        requires
            q < old(self)@.len(),
        ensures
            final(self)@ == old(self)@.update(
                q as int,
                StateView { accept, edges: old(self)@[q as int].edges },
            ),
            old(self).wf() ==> final(self).wf(),
            old(self)@[q as int].accept is None ==> extends(old(self)@, final(self)@),
    {
        proof {
            reveal(Dfa::table);
        }
        self.states[q].accept = accept;
        proof {
            assert(self@ =~= old(self)@.update(
                q as int,
                StateView { accept, edges: old(self)@[q as int].edges },
            ));
            lemma_extends_refl(old(self)@);
        }
    }

    /// Adds an edge from `from` to `to` behind the edges `from` already has.
    pub fn add_edge(&mut self, from: usize, lo: char, hi: char, to: usize)
        requires
            from < old(self)@.len(),
        ensures
            final(self)@ == old(self)@.update(
                from as int,
                StateView {
                    accept: old(self)@[from as int].accept,
                    edges: old(self)@[from as int].edges.push(Edge { lo, hi, to }),
                },
            ),
            old(self).wf() && to < old(self)@.len() ==> final(self).wf(),
            extends(old(self)@, final(self)@),
            links(*old(self), *final(self), from as int, to as int, |c: char| lo <= c <= hi),
    {
        proof {
            reveal(Dfa::table);
        }
        self.states[from].edges.push(Edge { lo, hi, to });
        proof {
            assert(self@ =~= old(self)@.update(
                from as int,
                StateView {
                    accept: old(self)@[from as int].accept,
                    edges: old(self)@[from as int].edges.push(Edge { lo, hi, to }),
                },
            ));
            lemma_extends_refl(old(self)@);
            let edges = old(self)@[from as int].edges;
            assert(edges.push(Edge { lo, hi, to }).take(edges.len() as int) =~= edges);
            lemma_edge_links(*old(self), *self, from as int, Edge { lo, hi, to });
        }
    }

    /// Makes the automaton accept `text` with `kind`: walks from the root
    /// along `text`, adds a state and an edge wherever the walk has no
    /// transition, and marks the state reached as accepting with `kind`, unless
    /// it accepts already. Returns the state reached.
    pub fn add_literal(&mut self, text: &str, kind: TokenType) -> (q: usize)
        requires
            old(self).wf(),
        ensures
            final(self).wf(),
            extends(old(self)@, final(self)@),
            final(self).state_after(text@, text@.len() as int) == Some(q as int),
            q < final(self)@.len(),
            final(self).accepting(q as int) == (if q < old(self)@.len() && old(self).accepting(
                q as int,
            ) is Some {
                old(self).accepting(q as int)
            } else {
                Some(kind)
            }),
            forall|p: int|
                0 <= p < final(self)@.len() && p != q ==> (#[trigger] final(self)@[p]).accept == (
                if p < old(self)@.len() {
                    old(self)@[p].accept
                } else {
                    None
                }),
            is_trie(old(self)@) ==> is_trie(final(self)@),
            forall|p: int, d: char|
                0 <= p < final(self)@.len() && (#[trigger] final(self).step(p, d)) is Some ==> (p
                    < old(self)@.len() && old(self).step(p, d) == final(self).step(p, d))
                    || final(self).on_path(text@, p, d),
            forall|p: int|
                old(self)@.len() <= p < final(self)@.len() ==> #[trigger] final(self).passes(
                    text@,
                    text@.len() as int,
                    p,
                ),
    {
        let total = text.as_bytes().len();
        let mut node = self.root();
        let mut offset: usize = 0;
        let ghost mut k: int = 0;
        proof {
            lemma_extends_refl(self@);
            assert(text@.take(0) =~= Seq::<char>::empty());
        }
        loop
            invariant
                self.wf(),
                extends(old(self)@, self@),
                0 <= k <= text@.len(),
                offset == byte_len(text@.take(k)),
                total == byte_len(text@),
                self.state_after(text@, k) == Some(node as int),
                node < self@.len(),
                forall|p: int|
                    old(self)@.len() <= p < self@.len() ==> (#[trigger] self@[p]).accept is None,
                forall|p: int|
                    0 <= p < old(self)@.len() ==> (#[trigger] self@[p]).accept == old(
                        self,
                    )@[p].accept,
                is_trie(old(self)@) ==> is_trie(self@),
                forall|p: int, d: char|
                    0 <= p < self@.len() && (#[trigger] self.step(p, d)) is Some ==> (p < old(
                        self,
                    )@.len() && old(self).step(p, d) == self.step(p, d)) || (exists|j: int|
                        0 <= j < k && #[trigger] self.state_after(text@, j) == Some(p) && text@[j]
                            == d),
                forall|p: int|
                    old(self)@.len() <= p < self@.len() ==> #[trigger] self.passes(text@, k, p),
            ensures
                k == text@.len(),
            decreases text@.len() - k,
        {
            let c = match char_at(text, offset, Ghost(k)) {
                None => {
                    break ;
                },
                Some(c) => c,
            };
            let ghost before = *self;
            let target = match self.next(node, &c) {
                Some(target) => {
                    proof {
                        assert forall|p: int|
                            old(self)@.len() <= p < self@.len() implies #[trigger] self.passes(
                            text@,
                            k + 1,
                            p,
                        ) by {
                            assert(self.passes(text@, k, p));
                            let j = choose|j: int|
                                0 <= j <= k && #[trigger] self.state_after(text@, j) == Some(p);
                            assert(0 <= j <= k + 1);
                        }
                    }
                    target
                },
                None => {
                    let target = self.add_state(None);
                    let ghost middle = *self;
                    self.add_edge(node, c, c, target);
                    proof {
                        lemma_extends_trans(before@, middle@, self@);
                        lemma_extends_trans(old(self)@, before@, self@);
                        lemma_extends_keeps_walk(before, *self, text@, k);
                        assert(before.step(node as int, c) is None);
                        assert(middle@[node as int] == before@[node as int]);
                        lemma_new_edge_taken(middle, *self, node as int, c, target);
                        if is_trie(before@) {
                            lemma_trie_grows(before, *self, node as int, c);
                        }
                        lemma_new_edge_on_path(*old(self), before, *self, text@, k, node as int, c);
                        lemma_new_state_on_path(*old(self), before, *self, text@, k, target as int);
                    }
                    target
                },
            };
            proof {
                assert(self.state_after(text@, k + 1) == Some(target as int));
                lemma_byte_len_prefix(text@, k + 1);
                assert(text@.take(k + 1) =~= text@.take(k).push(c));
                lemma_byte_len_push(text@.take(k), c);
                k = k + 1;
            }
            offset += width_of(c);
            node = target;
        }
        let ghost walked = *self;
        proof {
            lemma_extends_refl(walked@);
        }
        if self.state(node).is_none() {
            self.set_accept(node, Some(kind));
            proof {
                lemma_extends_trans(old(self)@, walked@, self@);
                lemma_extends_keeps_walk(walked, *self, text@, k);
                if is_trie(walked@) {
                    lemma_trie_marked(walked, *self, node as int, Some(kind));
                }
                lemma_marking_keeps_steps(walked, *self, node as int, Some(kind));
            }
        }
        proof {
            lemma_paths_carry_over(*old(self), walked, *self, text@);
            assert forall|p: int|
                old(self)@.len() <= p < self@.len() implies #[trigger] self.passes(
                text@,
                text@.len() as int,
                p,
            ) by {
                assert(walked.passes(text@, k, p));
                let j = choose|j: int|
                    0 <= j <= k && #[trigger] walked.state_after(text@, j) == Some(p);
                lemma_extends_keeps_walk(walked, *self, text@, j);
            }
        }
        node
    }

    /// The successor of `node` on `c`.
    pub fn next(&self, node: usize, c: &char) -> (r: Option<usize>)
        requires
            self.wf(),
            node < self@.len(),
        ensures
            r matches Some(q) ==> self.step(node as int, *c) == Some(q as int) && q < self@.len(),
            r is None ==> self.step(node as int, *c) is None,
    {
        proof {
            reveal(Dfa::table);
        }
        let edges = &self.states[node].edges;
        let mut i: usize = 0;
        assert(edges@.skip(0) =~= edges@);
        while i < edges.len()
            invariant
                i <= edges@.len(),
                edges@ == self@[node as int].edges,
                first_match(edges@, *c) == first_match(edges@.skip(i as int), *c),
                node < self@.len(),
                self.wf(),
            decreases edges@.len() - i,
        {
            let e = edges[i];
            proof {
                assert(edges@.skip(i as int)[0] == e);
                assert(edges@.skip(i as int).drop_first() =~= edges@.skip(i as int + 1));
            }
            if e.lo <= *c && *c <= e.hi {
                return Some(e.to);
            }
            i += 1;
        }
        None
    }

    /// The category with which `node` accepts, if it accepts.
    pub fn state(&self, node: usize) -> (r: Option<TokenType>)
        requires
            node < self@.len(),
        ensures
            r == self.accepting(node as int),
    {
        proof {
            reveal(Dfa::table);
        }
        self.states[node].accept
    }
}

/// An edge added behind the edges of a state is one more way out of it.
proof fn lemma_edge_links(a: Dfa, b: Dfa, from: int, edge: Edge)
    requires
        0 <= from < a@.len(),
        b@ == a@.update(
            from,
            StateView { accept: a@[from].accept, edges: a@[from].edges.push(edge) },
        ),
    ensures
        links(a, b, from, edge.to as int, |c: char| edge.lo <= c <= edge.hi),
{
    assert forall|p: int, c: char| 0 <= p < a@.len() implies #[trigger] b.step(p, c) == (if p
        == from && a.step(p, c) is None && edge.lo <= c <= edge.hi {
        Some(edge.to as int)
    } else {
        a.step(p, c)
    }) by {
        if p == from {
            lemma_first_match_push(a@[from].edges, edge, c);
        } else {
            assert(b@[p] == a@[p]);
        }
    }
    assert forall|p: int| 0 <= p < a@.len() implies #[trigger] b.accepting(p) == a.accepting(
        p,
    ) by {
        if p != from {
            assert(b@[p] == a@[p]);
        }
    }
}

/// An edge for one character, added to a state that had no transition on
/// that character, is the transition on it.
proof fn lemma_new_edge_taken(a: Dfa, b: Dfa, node: int, c: char, target: usize)
    requires
        0 <= node < a@.len(),
        a.step(node, c) is None,
        b@ == a@.update(
            node,
            StateView {
                accept: a@[node].accept,
                edges: a@[node].edges.push(Edge { lo: c, hi: c, to: target }),
            },
        ),
    ensures
        b.step(node, c) == Some(target as int),
{
    lemma_first_match_push(a@[node].edges, Edge { lo: c, hi: c, to: target }, c);
}

/// What adding a state and an edge along a text does to the transitions: the
/// new edge is on the text's path, and every other transition was there.
proof fn lemma_new_edge_on_path(
    first: Dfa,
    a: Dfa,
    b: Dfa,
    text: Seq<char>,
    k: int,
    node: int,
    c: char,
)
    requires
        a.wf(),
        extends(a@, b@),
        0 <= node < a@.len(),
        a@.len() <= usize::MAX,
        0 <= k < text.len(),
        text[k] == c,
        a.state_after(text, k) == Some(node),
        a.step(node, c) is None,
        b@ == a@.push(StateView { accept: None, edges: Seq::empty() }).update(
            node,
            StateView {
                accept: a@[node].accept,
                edges: a@[node].edges.push(Edge { lo: c, hi: c, to: a@.len() as usize }),
            },
        ),
        forall|p: int, d: char|
            0 <= p < a@.len() && (#[trigger] a.step(p, d)) is Some ==> (p < first@.len()
                && first.step(p, d) == a.step(p, d)) || (exists|j: int|
                0 <= j < k && #[trigger] a.state_after(text, j) == Some(p) && text[j] == d),
    ensures
        forall|p: int, d: char|
            0 <= p < b@.len() && (#[trigger] b.step(p, d)) is Some ==> (p < first@.len()
                && first.step(p, d) == b.step(p, d)) || (exists|j: int|
                0 <= j < k + 1 && #[trigger] b.state_after(text, j) == Some(p) && text[j] == d),
{
    let middle = a@.push(StateView { accept: None, edges: Seq::empty() });
    assert forall|p: int, d: char| 0 <= p < b@.len() && (#[trigger] b.step(p, d)) is Some implies (p
        < first@.len() && first.step(p, d) == b.step(p, d)) || (exists|j: int|
        0 <= j < k + 1 && #[trigger] b.state_after(text, j) == Some(p) && text[j] == d) by {
        if p == node {
            lemma_first_match_push(
                a@[node].edges,
                Edge { lo: c, hi: c, to: a@.len() as usize },
                d,
            );
        } else {
            assert(b@[p] == middle[p]);
        }
        if p < a@.len() && a.step(p, d) is Some {
            assert(b.step(p, d) == a.step(p, d));
            if !(p < first@.len() && first.step(p, d) == a.step(p, d)) {
                let j = choose|j: int|
                    0 <= j < k && #[trigger] a.state_after(text, j) == Some(p) && text[j] == d;
                lemma_extends_keeps_walk(a, b, text, j);
            }
        } else {
            assert(p == node && d == c);
            lemma_extends_keeps_walk(a, b, text, k);
        }
    }
}

/// The state added along a text, and those added before it, are on the
/// text's path.
proof fn lemma_new_state_on_path(
    first: Dfa,
    a: Dfa,
    b: Dfa,
    text: Seq<char>,
    k: int,
    target: int,
)
    requires
        a.wf(),
        extends(a@, b@),
        b@.len() == a@.len() + 1,
        target == a@.len(),
        0 <= k < text.len(),
        b.state_after(text, k + 1) == Some(target),
        forall|p: int| first@.len() <= p < a@.len() ==> #[trigger] a.passes(text, k, p),
    ensures
        forall|p: int| first@.len() <= p < b@.len() ==> #[trigger] b.passes(text, k + 1, p),
{
    assert forall|p: int| first@.len() <= p < b@.len() implies #[trigger] b.passes(
        text,
        k + 1,
        p,
    ) by {
        if p < a@.len() {
            assert(a.passes(text, k, p));
            let j = choose|j: int| 0 <= j <= k && #[trigger] a.state_after(text, j) == Some(p);
            lemma_extends_keeps_walk(a, b, text, j);
        }
    }
}

/// Marking a state changes no transition and no walk.
proof fn lemma_marking_keeps_steps(a: Dfa, b: Dfa, q: int, accept: Option<TokenType>)
    requires
        a.wf(),
        0 <= q < a@.len(),
        b@ == a@.update(q, StateView { accept, edges: a@[q].edges }),
    ensures
        forall|p: int, d: char| 0 <= p < a@.len() ==> #[trigger] b.step(p, d) == a.step(p, d),
        forall|text: Seq<char>, n: int| #[trigger] b.state_after(text, n) == a.state_after(text, n),
{
    assert forall|p: int, d: char| 0 <= p < a@.len() implies #[trigger] b.step(p, d) == a.step(
        p,
        d,
    ) by {
        if p != q {
            assert(b@[p] == a@[p]);
        }
    }
    assert forall|text: Seq<char>, n: int| #[trigger]
        b.state_after(text, n) == a.state_after(text, n) by {
        lemma_same_edges_same_walk(a, b, text, n);
    }
}

/// Two automata with the same edges walk alike.
proof fn lemma_same_edges_same_walk(a: Dfa, b: Dfa, text: Seq<char>, n: int)
    requires
        a.wf(),
        a@.len() == b@.len(),
        forall|p: int| 0 <= p < a@.len() ==> (#[trigger] a@[p]).edges == b@[p].edges,
    ensures
        b.state_after(text, n) == a.state_after(text, n),
    decreases n,
{
    if n > 0 {
        lemma_same_edges_same_walk(a, b, text, n - 1);
        lemma_walk_in_range(a, text, n - 1);
        if let Some(p) = a.state_after(text, n - 1) {
            let _ = a@[p];
        }
    }
}

/// Transitions that lie on the text's path in one automaton lie on it in
/// another that steps and walks alike.
proof fn lemma_paths_carry_over(first: Dfa, a: Dfa, b: Dfa, text: Seq<char>)
    requires
        a@.len() == b@.len(),
        forall|p: int, d: char| 0 <= p < a@.len() ==> #[trigger] b.step(p, d) == a.step(p, d),
        forall|t: Seq<char>, n: int| #[trigger] b.state_after(t, n) == a.state_after(t, n),
        forall|p: int, d: char|
            0 <= p < a@.len() && (#[trigger] a.step(p, d)) is Some ==> (p < first@.len()
                && first.step(p, d) == a.step(p, d)) || (exists|j: int|
                0 <= j < text.len() && #[trigger] a.state_after(text, j) == Some(p) && text[j]
                    == d),
    ensures
        forall|p: int, d: char|
            0 <= p < b@.len() && (#[trigger] b.step(p, d)) is Some ==> (p < first@.len()
                && first.step(p, d) == b.step(p, d)) || b.on_path(text, p, d),
{
    assert forall|p: int, d: char| 0 <= p < b@.len() && (#[trigger] b.step(p, d)) is Some implies (p
        < first@.len() && first.step(p, d) == b.step(p, d)) || b.on_path(text, p, d) by {
        assert(a.step(p, d) is Some);
        if !(p < first@.len() && first.step(p, d) == a.step(p, d)) {
            let j = choose|j: int|
                0 <= j < text.len() && #[trigger] a.state_after(text, j) == Some(p) && text[j]
                    == d;
            assert(b.state_after(text, j) == Some(p));
        }
    }
}

/// A trie with a new state, reached from `node` by a new edge for `c`, is a
/// trie.
proof fn lemma_trie_grows(a: Dfa, b: Dfa, node: int, c: char)
    requires
        is_trie(a@),
        0 <= node < a@.len(),
        a@.len() <= usize::MAX,
        b@ == a@.push(StateView { accept: None, edges: Seq::empty() }).update(
            node,
            StateView {
                accept: a@[node].accept,
                edges: a@[node].edges.push(Edge { lo: c, hi: c, to: a@.len() as usize }),
            },
        ),
    ensures
        is_trie(b@),
{
    let labels = choose|labels: Seq<Seq<char>>| spelled_by(a@, labels);
    let grown = labels.push(labels[node].push(c));
    let middle = a@.push(StateView { accept: None, edges: Seq::empty() });
    assert forall|q: int, e: int| 0 <= q < b@.len() && 0 <= e < b@[q].edges.len() implies {
        let edge = #[trigger] b@[q].edges[e];
        &&& edge.lo == edge.hi
        &&& edge.to < b@.len()
        &&& grown[edge.to as int] == grown[q].push(edge.lo)
    } by {
        if q == node {
            if e < a@[node].edges.len() {
                let _ = a@[q].edges[e];
            }
        } else if q < a@.len() {
            assert(b@[q] == middle[q]);
            let _ = a@[q].edges[e];
        } else {
            assert(b@[q] == middle[q]);
        }
    }
    assert(spelled_by(b@, grown));
}

/// A trie whose states are marked anew, with the edges untouched, is a trie.
proof fn lemma_trie_marked(a: Dfa, b: Dfa, q: int, accept: Option<TokenType>)
    requires
        is_trie(a@),
        0 <= q < a@.len(),
        b@ == a@.update(q, StateView { accept, edges: a@[q].edges }),
    ensures
        is_trie(b@),
{
    let labels = choose|labels: Seq<Seq<char>>| spelled_by(a@, labels);
    assert forall|p: int, e: int| 0 <= p < b@.len() && 0 <= e < b@[p].edges.len() implies {
        let edge = #[trigger] b@[p].edges[e];
        &&& edge.lo == edge.hi
        &&& edge.to < b@.len()
        &&& labels[edge.to as int] == labels[p].push(edge.lo)
    } by {
        if p != q {
            assert(b@[p] == a@[p]);
        }
        let _ = a@[p].edges[e];
    }
    assert(spelled_by(b@, labels));
}

} // verus!
