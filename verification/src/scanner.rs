//! The raw scanner: greedy longest match over the automaton, with recovery by
//! skipping one character.

use crate::dfa::Dfa;
use crate::keywords::{keyword, match_keyword};
use crate::position::{lemma_after_concat, lemma_after_origin_bounds, lemma_after_push};
use crate::text::{byte_len, char_at, lemma_byte_len_prefix, slice_between};
use crate::token::{item_view, Item, Lexeme, LexicalError, Location, Token, TokenType};
use vstd::prelude::*;

verus! {

/// The category a token is given, from the category its accepting state holds
/// and its text: whitespace that holds a line feed is a physical newline, and
/// an identifier that spells a reserved word is that word.
pub open spec fn classify(raw: TokenType, text: Seq<char>) -> TokenType {
    if raw == TokenType::Whitespace && text.contains('\n') {
        TokenType::NewLine
    } else if raw == TokenType::Identifier {
        match keyword(text) {
            Some(word) => word,
            None => raw,
        }
    } else {
        raw
    }
}

/// How many characters of the non-empty text `rem` the next lexeme covers: the
/// longest accepted prefix, or one character where none is accepted.
pub open spec fn scan_len(dfa: Dfa, rem: Seq<char>) -> int {
    let n = dfa.longest_accept(rem, rem.len() as int);
    if n > 0 {
        n
    } else {
        1
    }
}

/// The next lexeme of the non-empty text `rem`, which begins at `loc`: the
/// token for the longest accepted prefix, or the first character as an error
/// where no prefix is accepted.
pub open spec fn scan(dfa: Dfa, rem: Seq<char>, loc: Location) -> Lexeme {
    let n = dfa.longest_accept(rem, rem.len() as int);
    if n > 0 {
        Lexeme::Token {
            start: loc,
            kind: classify(dfa.category(rem, n), rem.take(n)),
            text: rem.take(n),
            end: loc.after(rem.take(n)),
        }
    } else {
        Lexeme::Unexpected { found: rem[0], at: loc }
    }
}

/// All the lexemes of the text `rem`, which begins at `loc`, in order.
pub open spec fn raw_stream(dfa: Dfa, rem: Seq<char>, loc: Location) -> Seq<Lexeme>
    decreases rem.len(),
{
    if rem.len() == 0 {
        Seq::empty()
    } else {
        let n = scan_len(dfa, rem);
        proof {
            lemma_longest_accept_bounds(dfa, rem, rem.len() as int);
        }
        seq![scan(dfa, rem, loc)] + raw_stream(dfa, rem.skip(n), loc.after(rem.take(n)))
    }
}

/// The longest accepted prefix is no longer than the bound it was sought
/// under; it is accepted, and nothing longer under the bound is.
pub proof fn lemma_longest_accept_bounds(dfa: Dfa, text: Seq<char>, n: int)
    requires
        0 <= n <= text.len(),
    ensures
        0 <= dfa.longest_accept(text, n) <= n,
        dfa.longest_accept(text, n) > 0 ==> dfa.accepts(text, dfa.longest_accept(text, n)),
        forall|m: int| dfa.longest_accept(text, n) < m <= n ==> !dfa.accepts(text, m),
    decreases n,
{
    if n > 0 && !dfa.accepts(text, n) {
        lemma_longest_accept_bounds(dfa, text, n - 1);
    }
}

/// Once the automaton has no transition, it has none for any longer prefix,
/// so the longest accepted prefix lies before that point.
pub proof fn lemma_dead_end(dfa: Dfa, text: Seq<char>, i: int, n: int)
    requires
        0 <= i <= n,
        dfa.state_after(text, i + 1) is None,
    ensures
        n > i ==> dfa.state_after(text, n) is None,
        dfa.longest_accept(text, n) == dfa.longest_accept(text, i),
    decreases n - i,
{
    if n > i {
        lemma_dead_end(dfa, text, i, n - 1);
    }
}

/// A text with one character appended holds `x` if the text did or the
/// character is `x`.
pub proof fn lemma_contains_push(s: Seq<char>, c: char, x: char)
    ensures
        s.push(c).contains(x) == (s.contains(x) || c == x),
{
    if s.contains(x) {
        let j = choose|j: int| 0 <= j < s.len() && s[j] == x;
        assert(s.push(c)[j] == x);
    }
    if c == x {
        assert(s.push(c)[s.len() as int] == x);
    }
    if s.push(c).contains(x) {
        let j = choose|j: int| 0 <= j < s.push(c).len() && s.push(c)[j] == x;
        if j < s.len() {
            assert(s[j] == x);
        }
    }
}

/// Where the scanner stands after `k + i` characters, reached in two legs:
/// the location, and that it fits the machine's integers.
pub proof fn lemma_position_reached(source: Seq<char>, k: int, i: int)
    requires
        0 <= k,
        0 <= i,
        k + i <= source.len(),
        byte_len(source) < usize::MAX,
    ensures
        ({
            let loc = Location::origin().after(source.take(k)).after(source.skip(k).take(i));
            &&& loc == Location::origin().after(source.take(k + i))
            &&& loc.index == byte_len(source.take(k + i))
            &&& 1 <= loc.line <= k + i + 1
            &&& 1 <= loc.column <= k + i + 1
            &&& k + i <= byte_len(source.take(k + i)) <= byte_len(source)
        }),
{
    lemma_after_concat(Location::origin(), source.take(k), source.skip(k).take(i));
    assert(source.take(k) + source.skip(k).take(i) =~= source.take(k + i));
    lemma_byte_len_prefix(source, k + i);
    lemma_after_origin_bounds(source.take(k + i));
}

/// The raw scanner over one source text.
#[derive(Clone)]
pub struct InnerLexer<'input> {
    dfa: &'input Dfa,
    source: &'input str,
    loc: Location,
    at: Ghost<int>,
}

impl<'input> InnerLexer<'input> {
    /// The automaton the scanner walks.
    pub closed spec fn automaton(&self) -> Dfa {
        *self.dfa
    }

    /// The whole source text.
    pub closed spec fn text(&self) -> Seq<char> {
        self.source@
    }

    /// How many characters have been consumed.
    pub closed spec fn consumed(&self) -> int {
        self.at@
    }

    /// Where the next lexeme begins.
    pub closed spec fn position(&self) -> Location {
        self.loc
    }

    /// The text not yet consumed.
    pub open spec fn remaining(&self) -> Seq<char> {
        self.text().skip(self.consumed())
    }

    /// The lexemes still to come.
    pub open spec fn pending(&self) -> Seq<Lexeme> {
        raw_stream(self.automaton(), self.remaining(), self.position())
    }

    /// The scanner's invariant: the automaton is well formed, the text fits
    /// the machine's integers, and the position is the one reached from the
    /// origin over what was consumed.
    pub open spec fn wf(&self) -> bool {
        &&& self.automaton().wf()
        &&& byte_len(self.text()) <= isize::MAX
        &&& 0 <= self.consumed() <= self.text().len()
        &&& self.position() == Location::origin().after(self.text().take(self.consumed()))
    }

    /// A scanner at the beginning of `input`.
    pub fn new(dfa: &'input Dfa, input: &'input str) -> (r: InnerLexer<'input>)
        requires
            dfa.wf(),
            byte_len(input@) <= isize::MAX,
        ensures
            r.wf(),
            r.automaton() == *dfa,
            r.text() == input@,
            r.consumed() == 0,
            r.position() == Location::origin(),
    {
        proof {
            assert(input@.take(0) =~= Seq::<char>::empty());
        }
        InnerLexer { dfa, source: input, loc: Location::start(), at: Ghost(0) }
    }

    /// The next lexeme, or nothing when the text is used up.
    pub fn next(&mut self) -> (r: Option<Item<'input>>)
        requires
            old(self).wf(),
        ensures
            final(self).wf(),
            final(self).automaton() == old(self).automaton(),
            final(self).text() == old(self).text(),
            match r {
                None => old(self).remaining().len() == 0 && *final(self) == *old(self),
                Some(item) => {
                    &&& old(self).remaining().len() > 0
                    &&& item_view(item) == scan(
                        old(self).automaton(),
                        old(self).remaining(),
                        old(self).position(),
                    )
                    &&& final(self).consumed() == old(self).consumed() + scan_len(
                        old(self).automaton(),
                        old(self).remaining(),
                    )
                },
            },
            old(self).pending() == (match r {
                None => Seq::empty(),
                Some(item) => seq![item_view(item)] + final(self).pending(),
            }),
    {
        let start = self.loc;
        let ghost k0 = self.at@;
        let ghost src = self.source@;
        let ghost rem = src.skip(k0);
        let ghost dfa = *self.dfa;
        proof {
            lemma_position_reached(src, k0, 0);
            assert(rem.take(0) =~= Seq::<char>::empty());
        }
        let first = match char_at(self.source, start.index, Ghost(k0)) {
            None => {
                return None;
            },
            Some(c) => c,
        };
        let mut node = self.dfa.root();
        let mut cur = start;
        let mut newline_seen = false;
        let mut best: Option<(TokenType, Location)> = None;
        let ghost mut i: int = 0;
        let ghost mut best_n: int = 0;
        loop
            invariant_except_break
                dfa.state_after(rem, i) == Some(node as int),
            invariant
                dfa == *self.dfa,
                dfa.wf(),
                src == self.source@,
                rem == src.skip(k0),
                byte_len(src) <= isize::MAX,
                0 <= k0 < src.len(),
                0 <= i <= rem.len(),
                node < dfa@.len(),
                cur == start.after(rem.take(i)),
                start == Location::origin().after(src.take(k0)),
                newline_seen == rem.take(i).contains('\n'),
                0 <= best_n <= i,
                best_n == dfa.longest_accept(rem, i),
                best is Some <==> best_n > 0,
                best matches Some((kind, end)) ==> {
                    &&& end == start.after(rem.take(best_n))
                    &&& kind == (if dfa.category(rem, best_n) == TokenType::Whitespace
                        && rem.take(best_n).contains('\n') {
                        TokenType::NewLine
                    } else {
                        dfa.category(rem, best_n)
                    })
                },
            ensures
                best_n == dfa.longest_accept(rem, rem.len() as int),
            decreases rem.len() - i,
        {
            proof {
                lemma_position_reached(src, k0, i);
            }
            let c = match char_at(self.source, cur.index, Ghost(k0 + i)) {
                None => {
                    break ;
                },
                Some(c) => c,
            };
            assert(c == rem[i]);
            match self.dfa.next(node, &c) {
                None => {
                    proof {
                        lemma_dead_end(dfa, rem, i, rem.len() as int);
                    }
                    break ;
                },
                Some(target) => {
                    proof {
                        lemma_position_reached(src, k0, i + 1);
                        assert(rem.take(i + 1) =~= rem.take(i).push(c));
                        lemma_after_push(start, rem.take(i), c);
                        lemma_contains_push(rem.take(i), c, '\n');
                        lemma_byte_len_prefix(src, src.len() as int);
                    }
                    cur = cur.advance(c);
                    if c == '\n' {
                        newline_seen = true;
                    }
                    proof {
                        i = i + 1;
                    }
                    match self.dfa.state(target) {
                        Some(raw) => {
                            let kind = if raw == TokenType::Whitespace && newline_seen {
                                TokenType::NewLine
                            } else {
                                raw
                            };
                            best = Some((kind, cur));
                            proof {
                                best_n = i;
                            }
                        },
                        None => {},
                    }
                    node = target;
                },
            }
        }
        proof {
            lemma_longest_accept_bounds(dfa, rem, rem.len() as int);
        }
        match best {
            Some((kind, end)) => {
                proof {
                    lemma_position_reached(src, k0, best_n);
                }
                let span = slice_between(
                    self.source,
                    start.index,
                    end.index,
                    Ghost(k0),
                    Ghost(k0 + best_n),
                );
                assert(span@ =~= rem.take(best_n));
                let mut tok = Token { kind, span };
                if tok.kind == TokenType::Identifier {
                    if let Some(word) = match_keyword(tok.span) {
                        tok.kind = word;
                    }
                }
                self.loc = end;
                self.at = Ghost(k0 + best_n);
                proof {
                    assert(rem.skip(best_n) =~= src.skip(k0 + best_n));
                }
                Some(Ok((start, (tok.kind, tok.span), end)))
            },
            None => {
                proof {
                    lemma_position_reached(src, k0, 1);
                    assert(rem.take(1) =~= Seq::<char>::empty().push(first));
                    lemma_after_push(start, Seq::<char>::empty(), first);
                    lemma_byte_len_prefix(src, src.len() as int);
                    assert(rem.skip(1) =~= src.skip(k0 + 1));
                }
                self.loc = start.advance(first);
                self.at = Ghost(k0 + 1);
                Some(Err(LexicalError::Unexpected(first, start)))
            },
        }
    }
}

} // verus!
