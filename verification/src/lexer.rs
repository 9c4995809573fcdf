//! The statement-break resolver: the stage the parser pulls from.
//!
//! It follows the nesting of parentheses and square brackets and remembers
//! the category of the token it emitted last. A physical newline ends a
//! statement, and is emitted, unless it stands inside brackets, follows a
//! token after which the statement must go on, or comes before one that can
//! only continue it; then it is dropped.

use crate::dfa::Dfa;
use crate::scanner::raw_stream;
use crate::stripper::{strip, WhitespaceStripper};
use crate::text::{byte_len, lemma_byte_len_prefix};
use crate::token::{item_view, Item, Lexeme, Location, TokenType};
use vstd::prelude::*;

verus! {

/// The binary and assignment operators that carry a statement across a line
/// break. The comparison operators are not among them.
pub open spec fn continuation_operator(kind: TokenType) -> bool {
    matches!(
        kind,
        TokenType::LogicalAnd
            | TokenType::LogicalOr
            | TokenType::LogicalAndAssign
            | TokenType::LogicalOrAssign
            | TokenType::Add
            | TokenType::Sub
            | TokenType::Mul
            | TokenType::Div
            | TokenType::Rem
            | TokenType::DivRem
            | TokenType::BitAnd
            | TokenType::BitOr
            | TokenType::BitXor
            | TokenType::Shl
            | TokenType::Shr
            | TokenType::LShr
            | TokenType::Assign
            | TokenType::AddAssign
            | TokenType::SubAssign
            | TokenType::MulAssign
            | TokenType::DivAssign
            | TokenType::RemAssign
            | TokenType::ModAssign
            | TokenType::BitAndAssign
            | TokenType::BitOrAssign
            | TokenType::BitXorAssign
            | TokenType::ShlAssign
            | TokenType::ShrAssign
            | TokenType::LShrAssign
    )
}

/// The categories after which a newline does not end the statement.
pub open spec fn continues_after(prev: TokenType) -> bool {
    matches!(
        prev,
        TokenType::Dot | TokenType::NewLine | TokenType::OpenCurly | TokenType::Semicolon
    ) || continuation_operator(prev)
}

/// The categories before which a newline does not end the statement.
pub open spec fn continues_before(next: TokenType) -> bool {
    matches!(
        next,
        TokenType::Dot | TokenType::CloseBracket | TokenType::Else | TokenType::Semicolon
    ) || continuation_operator(next)
}

/// By how much a token of this category changes the nesting depth.
pub open spec fn depth_change(kind: TokenType) -> int {
    match kind {
        TokenType::OpenParen | TokenType::OpenBracket => 1,
        TokenType::CloseParen | TokenType::CloseBracket => -1,
        _ => 0,
    }
}

/// Whether a physical newline is dropped, given the nesting depth, the
/// category emitted last and the lexeme that follows the newline.
pub open spec fn suppressed(depth: int, prev: Option<TokenType>, ahead: Option<Lexeme>) -> bool {
    ||| depth > 0
    ||| (prev matches Some(p) && continues_after(p))
    ||| (ahead matches Some(Lexeme::Token { kind, .. }) && continues_before(kind))
}

/// What the resolver emits for the stream `upstream`, starting at nesting
/// depth `depth` with `prev` the category emitted last.
pub open spec fn resolve(upstream: Seq<Lexeme>, depth: int, prev: Option<TokenType>) -> Seq<
    Lexeme,
>
    decreases upstream.len(),
{
    if upstream.len() == 0 {
        Seq::empty()
    } else {
        let rest = upstream.drop_first();
        match upstream[0] {
            Lexeme::Unexpected { .. } => seq![upstream[0]] + resolve(rest, depth, prev),
            Lexeme::Token { kind, .. } => {
                if kind == TokenType::NewLine {
                    let ahead = if rest.len() > 0 {
                        Some(rest[0])
                    } else {
                        None
                    };
                    if suppressed(depth, prev, ahead) {
                        resolve(rest, depth, prev)
                    } else {
                        seq![upstream[0]] + resolve(rest, depth, Some(kind))
                    }
                } else {
                    seq![upstream[0]] + resolve(rest, depth + depth_change(kind), Some(kind))
                }
            },
        }
    }
}

/// Everything the parser is handed for the source `text`.
pub open spec fn tokens(dfa: Dfa, text: Seq<char>) -> Seq<Lexeme> {
    resolve(strip(raw_stream(dfa, text, Location::origin())), 0, None)
}

/// Whether `kind` is one of the operators that carry a statement across a
/// line break.
pub fn is_continuation_operator(kind: TokenType) -> (r: bool)
    ensures
        r == continuation_operator(kind),
{
    match kind {
        TokenType::LogicalAnd
        | TokenType::LogicalOr
        | TokenType::LogicalAndAssign
        | TokenType::LogicalOrAssign
        | TokenType::Add
        | TokenType::Sub
        | TokenType::Mul
        | TokenType::Div
        | TokenType::Rem
        | TokenType::DivRem
        | TokenType::BitAnd
        | TokenType::BitOr
        | TokenType::BitXor
        | TokenType::Shl
        | TokenType::Shr
        | TokenType::LShr
        | TokenType::Assign
        | TokenType::AddAssign
        | TokenType::SubAssign
        | TokenType::MulAssign
        | TokenType::DivAssign
        | TokenType::RemAssign
        | TokenType::ModAssign
        | TokenType::BitAndAssign
        | TokenType::BitOrAssign
        | TokenType::BitXorAssign
        | TokenType::ShlAssign
        | TokenType::ShrAssign
        | TokenType::LShrAssign => true,
        _ => false,
    }
}

/// Whether a newline that follows a token of category `prev` is dropped.
pub fn newline_continues_after(prev: TokenType) -> (r: bool)
    ensures
        r == continues_after(prev),
{
    match prev {
        TokenType::Dot | TokenType::NewLine | TokenType::OpenCurly | TokenType::Semicolon => true,
        _ => is_continuation_operator(prev),
    }
}

/// Whether a newline that comes before a token of category `next` is
/// dropped.
pub fn newline_continues_before(next: TokenType) -> (r: bool)
    ensures
        r == continues_before(next),
{
    match next {
        TokenType::Dot | TokenType::CloseBracket | TokenType::Else | TokenType::Semicolon => true,
        _ => is_continuation_operator(next),
    }
}

/// A lexing session over one source text.
#[derive(Clone)]
pub struct Lexer<'input> {
    inner: WhitespaceStripper<'input>,
    peeked: Option<Option<Item<'input>>>,
    prev: Option<TokenType>,
    paren_lvl: isize,
}

impl<'input> Lexer<'input> {
    /// The automaton the session scans with.
    pub closed spec fn automaton(&self) -> Dfa {
        self.inner.scanner().automaton()
    }

    /// The whole source text.
    pub closed spec fn text(&self) -> Seq<char> {
        self.inner.scanner().text()
    }

    /// The lexemes the resolver has yet to look at: the one it has looked
    /// ahead to, if any, and what the trivia filter still holds.
    pub closed spec fn upstream(&self) -> Seq<Lexeme> {
        match self.peeked {
            None => self.inner.pending(),
            Some(None) => Seq::empty(),
            Some(Some(item)) => seq![item_view(item)] + self.inner.pending(),
        }
    }

    /// The nesting depth of parentheses and square brackets.
    pub closed spec fn depth(&self) -> int {
        self.paren_lvl as int
    }

    /// The category of the token emitted last.
    pub closed spec fn preceding(&self) -> Option<TokenType> {
        self.prev
    }

    /// The lexemes still to come.
    pub open spec fn pending(&self) -> Seq<Lexeme> {
        resolve(self.upstream(), self.depth(), self.preceding())
    }

    /// The session's invariant.
    pub closed spec fn wf(&self) -> bool {
        &&& self.inner.wf()
        &&& self.peeked == Some(None::<Item<'input>>) ==> self.inner.scanner().pending().len() == 0
        &&& self.room() >= 0
    }

    /// How many characters were consumed beyond one for each bracket counted
    /// and one for the item looked ahead to.
    closed spec fn room(&self) -> int {
        self.inner.scanner().consumed() - (if self.paren_lvl >= 0 {
            self.paren_lvl as int
        } else {
            -(self.paren_lvl as int)
        }) - (if self.peeked matches Some(Some(_)) {
            1int
        } else {
            0int
        })
    }

    /// A session at the beginning of `input`, scanning with `dfa`.
    pub fn new(dfa: &'input Dfa, input: &'input str) -> (r: Lexer<'input>)
        requires
            dfa.wf(),
            byte_len(input@) <= isize::MAX,
        ensures
            r.wf(),
            r.automaton() == *dfa,
            r.text() == input@,
            r.depth() == 0,
            r.preceding() == None::<TokenType>,
            r.upstream() == strip(raw_stream(*dfa, input@, Location::origin())),
            r.pending() == tokens(*dfa, input@),
    {
        proof {
            assert(input@.skip(0) =~= input@);
        }
        Lexer { inner: WhitespaceStripper::new(dfa, input), peeked: None, prev: None, paren_lvl: 0 }
    }

    /// Takes the next lexeme from upstream: the one looked ahead to, if there
    /// is one, else the trivia filter's next.
    fn pull(&mut self) -> (r: Option<Item<'input>>)
        requires
            old(self).wf(),
        ensures
            final(self).wf(),
            final(self).automaton() == old(self).automaton(),
            final(self).text() == old(self).text(),
            final(self).prev == old(self).prev,
            final(self).paren_lvl == old(self).paren_lvl,
            final(self).peeked is None || final(self).peeked == Some(None::<Item<'input>>),
            r is Some ==> final(self).peeked is None && final(self).room() >= 1,
            r is None ==> final(self).upstream().len() == 0,
            old(self).upstream() == (match r {
                None => Seq::empty(),
                Some(item) => seq![item_view(item)] + final(self).upstream(),
            }),
    {
        match self.peeked {
            Some(ahead) => {
                match ahead {
                    Some(item) => {
                        self.peeked = None;
                        Some(item)
                    },
                    None => {
                        assert(strip(Seq::<Lexeme>::empty()) =~= Seq::<Lexeme>::empty()) by {
                            reveal(Seq::filter);
                        }
                        None
                    },
                }
            },
            None => {
                let r = self.inner.next();
                if r.is_none() {
                    self.peeked = Some(None);
                }
                r
            },
        }
    }

    /// Looks ahead to the next lexeme from upstream without taking it, and
    /// returns its category if it is a token.
    fn peek_kind(&mut self) -> (r: Option<TokenType>)
        requires
            old(self).wf(),
            old(self).peeked is None,
            old(self).room() >= 1,
        ensures
            final(self).wf(),
            final(self).automaton() == old(self).automaton(),
            final(self).text() == old(self).text(),
            final(self).prev == old(self).prev,
            final(self).paren_lvl == old(self).paren_lvl,
            final(self).upstream() == old(self).upstream(),
            r == (if old(self).upstream().len() > 0 {
                old(self).upstream()[0].kind()
            } else {
                None
            }),
    {
        let ahead = self.inner.next();
        self.peeked = Some(ahead);
        match ahead {
            Some(Ok((_, (kind, _), _))) => Some(kind),
            _ => None,
        }
    }

    /// The next lexeme for the parser, or nothing at the end of the stream.
    pub fn next(&mut self) -> (r: Option<Item<'input>>)
        requires
            old(self).wf(),
        ensures
            final(self).wf(),
            final(self).automaton() == old(self).automaton(),
            final(self).text() == old(self).text(),
            old(self).pending() == (match r {
                None => Seq::empty(),
                Some(item) => seq![item_view(item)] + final(self).pending(),
            }),
            r is None ==> final(self).pending().len() == 0,
    {
        loop
            invariant
                self.wf(),
                self.automaton() == old(self).automaton(),
                self.text() == old(self).text(),
                self.pending() == old(self).pending(),
            decreases self.upstream().len(),
        {
            let ghost before = *self;
            let t = match self.pull() {
                None => {
                    return None;
                },
                Some(t) => t,
            };
            proof {
                assert(before.upstream()[0] == item_view(t));
                assert(before.upstream().drop_first() =~= self.upstream());
                let s = self.inner.scanner();
                lemma_byte_len_prefix(s.text(), s.text().len() as int);
            }
            match t {
                Err(e) => {
                    return Some(Err(e));
                },
                Ok((start, (kind, span), end)) => {
                    match kind {
                        TokenType::NewLine => {
                            if self.paren_lvl > 0 {
                                continue ;
                            }
                            if let Some(prev) = self.prev {
                                if newline_continues_after(prev) {
                                    continue ;
                                }
                            }
                            if let Some(next) = self.peek_kind() {
                                if newline_continues_before(next) {
                                    continue ;
                                }
                            }
                        },
                        TokenType::OpenParen | TokenType::OpenBracket => {
                            self.paren_lvl += 1;
                        },
                        TokenType::CloseParen | TokenType::CloseBracket => {
                            self.paren_lvl -= 1;
                        },
                        _ => {},
                    }
                    self.prev = Some(kind);
                    return Some(Ok((start, (kind, span), end)));
                },
            }
        }
    }
}

} // verus!
