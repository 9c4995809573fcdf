//! The trivia filter: whitespace and comments are dropped, everything else
//! passes in order.

use crate::dfa::Dfa;
use crate::scanner::{lemma_longest_accept_bounds, InnerLexer};
use crate::text::byte_len;
use crate::token::{item_view, Item, Lexeme, Location, TokenType};
use vstd::prelude::*;

verus! {

/// Whether a lexeme is trivia: a token of whitespace that holds no line feed,
/// or a plain comment. Errors are not trivia.
pub open spec fn is_trivia(lexeme: Lexeme) -> bool {
    lexeme.kind() == Some(TokenType::Whitespace) || lexeme.kind() == Some(TokenType::Comment)
}

/// The predicate by which the filter keeps a lexeme.
pub open spec fn kept() -> spec_fn(Lexeme) -> bool {
    |lexeme: Lexeme| !is_trivia(lexeme)
}

/// A stream without its trivia.
pub open spec fn strip(stream: Seq<Lexeme>) -> Seq<Lexeme> {
    stream.filter(kept())
}

/// Whether a category is trivia.
pub fn is_trivia_kind(kind: TokenType) -> (r: bool)
    ensures
        r == (kind == TokenType::Whitespace || kind == TokenType::Comment),
{
    match kind {
        TokenType::Whitespace => true,
        TokenType::Comment => true,
        _ => false,
    }
}

/// The scanner with trivia removed.
#[derive(Clone)]
pub struct WhitespaceStripper<'input> {
    inner: InnerLexer<'input>,
}

impl<'input> WhitespaceStripper<'input> {
    /// The scanner underneath.
    pub closed spec fn scanner(&self) -> InnerLexer<'input> {
        self.inner
    }

    /// The filter's invariant is the scanner's.
    pub open spec fn wf(&self) -> bool {
        self.scanner().wf()
    }

    /// The lexemes still to come: the scanner's, without trivia.
    pub open spec fn pending(&self) -> Seq<Lexeme> {
        strip(self.scanner().pending())
    }

    /// A filter at the beginning of `input`.
    pub fn new(dfa: &'input Dfa, input: &'input str) -> (r: WhitespaceStripper<'input>)
        requires
            dfa.wf(),
            byte_len(input@) <= isize::MAX,
        ensures
            r.wf(),
            r.scanner().automaton() == *dfa,
            r.scanner().text() == input@,
            r.scanner().consumed() == 0,
            r.scanner().position() == Location::origin(),
    {
        WhitespaceStripper { inner: InnerLexer::new(dfa, input) }
    }

    /// The next lexeme that is not trivia, or nothing when the text is used
    /// up.
    pub fn next(&mut self) -> (r: Option<Item<'input>>)
        requires
            old(self).wf(),
        ensures
            final(self).wf(),
            final(self).scanner().automaton() == old(self).scanner().automaton(),
            final(self).scanner().text() == old(self).scanner().text(),
            final(self).scanner().consumed() >= old(self).scanner().consumed(),
            r is Some ==> final(self).scanner().consumed() > old(self).scanner().consumed(),
            r is None ==> final(self).scanner().pending().len() == 0,
            r is None ==> final(self).pending().len() == 0,
            old(self).pending() == (match r {
                None => Seq::empty(),
                Some(item) => seq![item_view(item)] + final(self).pending(),
            }),
    {
        loop
            invariant
                self.inner.wf(),
                self.inner.automaton() == old(self).inner.automaton(),
                self.inner.text() == old(self).inner.text(),
                self.inner.consumed() >= old(self).inner.consumed(),
                strip(self.inner.pending()) == strip(old(self).inner.pending()),
            decreases self.inner.text().len() - self.inner.consumed(),
        {
            let ghost before = self.inner;
            proof {
                lemma_longest_accept_bounds(
                    before.automaton(),
                    before.remaining(),
                    before.remaining().len() as int,
                );
            }
            match self.inner.next() {
                None => {
                    assert(strip(Seq::<Lexeme>::empty()) =~= Seq::<Lexeme>::empty()) by {
                        reveal(Seq::filter);
                    }
                    return None;
                },
                Some(t) => {
                    proof {
                        self.inner.pending().lemma_filter_prepend(item_view(t), kept());
                    }
                    let trivia = match t {
                        Ok((_, (kind, _), _)) => is_trivia_kind(kind),
                        Err(_) => false,
                    };
                    if !trivia {
                        assert(strip(before.pending()) =~= seq![item_view(t)] + strip(
                            self.inner.pending(),
                        ));
                        return Some(t);
                    }
                    assert(strip(before.pending()) =~= strip(self.inner.pending()));
                },
            }
        }
    }
}

} // verus!
