//! What holds of every scan: the lexemes partition the text, each is the
//! longest match, there are no more of them than characters, and each begins
//! where the one before it ends. And what holds of the stages above it: the
//! trivia filter drops trivia and nothing else, and the resolver drops
//! newlines and nothing else, and emits a newline only where a statement
//! ends.

use crate::dfa::Dfa;
use crate::lexer::{continues_after, continues_before, depth_change, resolve, suppressed};
use crate::position::{lemma_after_concat, lemma_after_origin_bounds, lemma_after_push};
use crate::text::{byte_len, lemma_byte_len_prefix};
use crate::stripper::{is_trivia, kept, strip};
use crate::token::TokenType;
use crate::scanner::{classify, lemma_longest_accept_bounds, raw_stream, scan, scan_len};
use crate::token::{Lexeme, Location};
use vstd::prelude::*;

verus! {

/// The characters that a stream of lexemes covers, in order: the text of each
/// token and the character of each error.
pub open spec fn concat(stream: Seq<Lexeme>) -> Seq<char>
    decreases stream.len(),
{
    if stream.len() == 0 {
        Seq::empty()
    } else {
        stream[0].chars() + concat(stream.drop_first())
    }
}

/// Where a lexeme ends: a token at its end, an error just past its character.
pub open spec fn end_of(lexeme: Lexeme) -> Location {
    match lexeme {
        Lexeme::Token { end, .. } => end,
        Lexeme::Unexpected { found, at } => at.step(found),
    }
}

/// The first lexeme of a text covers a prefix of it, at least one character
/// long, begins where the text begins and ends where the prefix ends.
pub proof fn lemma_scan_covers_prefix(dfa: Dfa, text: Seq<char>, loc: Location)
    requires
        text.len() > 0,
    ensures
        1 <= scan_len(dfa, text) <= text.len(),
        scan(dfa, text, loc).chars() == text.take(scan_len(dfa, text)),
        scan(dfa, text, loc).start() == loc,
        end_of(scan(dfa, text, loc)) == loc.after(text.take(scan_len(dfa, text))),
{
    lemma_longest_accept_bounds(dfa, text, text.len() as int);
    if dfa.longest_accept(text, text.len() as int) == 0 {
        assert(text.take(1) =~= Seq::<char>::empty().push(text[0]));
        assert(seq![text[0]] =~= text.take(1));
        lemma_after_push(loc, Seq::<char>::empty(), text[0]);
    }
}

/// Longest match: a token's text is a prefix that the automaton accepts, no
/// longer prefix is accepted, and its category is the accepting state's,
/// reclassified; an error stands where no prefix at all is accepted.
pub proof fn lemma_scan_is_longest_match(dfa: Dfa, text: Seq<char>, loc: Location)
    requires
        text.len() > 0,
    ensures
        match scan(dfa, text, loc) {
            Lexeme::Token { start, kind, text: matched, end } => {
                let n = matched.len() as int;
                &&& matched == text.take(n)
                &&& dfa.accepts(text, n)
                &&& forall|m: int| n < m <= text.len() ==> !dfa.accepts(text, m)
                &&& kind == classify(dfa.category(text, n), matched)
            },
            Lexeme::Unexpected { found, at } => {
                &&& found == text[0]
                &&& at == loc
                &&& forall|m: int| !dfa.accepts(text, m)
            },
        },
{
    lemma_longest_accept_bounds(dfa, text, text.len() as int);
}

/// A text that the automaton accepts as a whole is scanned as one token, with
/// the category it is accepted with, reclassified.
pub proof fn lemma_accepted_text_is_one_token(dfa: Dfa, text: Seq<char>, loc: Location)
    requires
        dfa.accepts(text, text.len() as int),
    ensures
        scan(dfa, text, loc) == (Lexeme::Token {
            start: loc,
            kind: classify(dfa.category(text, text.len() as int), text),
            text,
            end: loc.after(text),
        }),
        raw_stream(dfa, text, loc) == seq![scan(dfa, text, loc)],
{
    assert(text.take(text.len() as int) =~= text);
    assert(text.skip(text.len() as int) =~= Seq::<char>::empty());
    lemma_raw_stream_unfold(dfa, text, loc);
    assert(raw_stream(dfa, text, loc).drop_first() =~= Seq::<Lexeme>::empty());
    assert(raw_stream(dfa, text, loc) =~= seq![scan(dfa, text, loc)]);
}

/// The stream of a text is the first lexeme and then the stream of what the
/// first lexeme leaves.
pub proof fn lemma_raw_stream_unfold(dfa: Dfa, text: Seq<char>, loc: Location)
    requires
        text.len() > 0,
    ensures
        raw_stream(dfa, text, loc).len() > 0,
        raw_stream(dfa, text, loc)[0] == scan(dfa, text, loc),
        raw_stream(dfa, text, loc).drop_first() == raw_stream(
            dfa,
            text.skip(scan_len(dfa, text)),
            loc.after(text.take(scan_len(dfa, text))),
        ),
{
    let rest = raw_stream(
        dfa,
        text.skip(scan_len(dfa, text)),
        loc.after(text.take(scan_len(dfa, text))),
    );
    assert(raw_stream(dfa, text, loc) == seq![scan(dfa, text, loc)] + rest);
    assert((seq![scan(dfa, text, loc)] + rest).drop_first() =~= rest);
}

/// Positions never go back: further into a text, the byte offset and the
/// line are no smaller.
pub proof fn lemma_position_monotone(text: Seq<char>, i: int, j: int)
    requires
        0 <= i <= j <= text.len(),
        byte_len(text) < usize::MAX,
    ensures
        Location::origin().after(text.take(i)).index <= Location::origin().after(
            text.take(j),
        ).index,
        Location::origin().after(text.take(i)).line <= Location::origin().after(text.take(j)).line,
    decreases j - i,
{
    if i < j {
        lemma_position_monotone(text, i, j - 1);
        assert(text.take(j) =~= text.take(j - 1).push(text[j - 1]));
        lemma_after_push(Location::origin(), text.take(j - 1), text[j - 1]);
        lemma_byte_len_prefix(text, j);
        lemma_byte_len_prefix(text, j - 1);
        lemma_after_origin_bounds(text.take(j));
        lemma_after_origin_bounds(text.take(j - 1));
    }
}

/// Partition: the lexemes of a text, concatenated, are the text.
pub proof fn lemma_raw_stream_partitions(dfa: Dfa, text: Seq<char>, loc: Location)
    ensures
        concat(raw_stream(dfa, text, loc)) == text,
    decreases text.len(),
{
    if text.len() > 0 {
        let n = scan_len(dfa, text);
        lemma_scan_covers_prefix(dfa, text, loc);
        lemma_raw_stream_unfold(dfa, text, loc);
        lemma_raw_stream_partitions(dfa, text.skip(n), loc.after(text.take(n)));
        assert(text.take(n) + text.skip(n) =~= text);
    } else {
        assert(concat(raw_stream(dfa, text, loc)) =~= text);
    }
}

/// Termination: a text has at most as many lexemes as characters.
pub proof fn lemma_raw_stream_bounded(dfa: Dfa, text: Seq<char>, loc: Location)
    ensures
        raw_stream(dfa, text, loc).len() <= text.len(),
    decreases text.len(),
{
    if text.len() > 0 {
        let n = scan_len(dfa, text);
        lemma_scan_covers_prefix(dfa, text, loc);
        lemma_raw_stream_unfold(dfa, text, loc);
        lemma_raw_stream_bounded(dfa, text.skip(n), loc.after(text.take(n)));
    }
}

/// Positions: lexeme `i` of a text begins at the location reached over the
/// lexemes before it, and ends at the location reached over those and itself.
pub proof fn lemma_raw_stream_positions(dfa: Dfa, text: Seq<char>, loc: Location, i: int)
    requires
        0 <= i < raw_stream(dfa, text, loc).len(),
    ensures
        raw_stream(dfa, text, loc)[i].start() == loc.after(
            concat(raw_stream(dfa, text, loc).take(i)),
        ),
        end_of(raw_stream(dfa, text, loc)[i]) == loc.after(
            concat(raw_stream(dfa, text, loc).take(i + 1)),
        ),
    decreases i,
{
    let stream = raw_stream(dfa, text, loc);
    let n = scan_len(dfa, text);
    let next = loc.after(text.take(n));
    lemma_scan_covers_prefix(dfa, text, loc);
    lemma_raw_stream_unfold(dfa, text, loc);
    let rest = stream.drop_first();
    if i == 0 {
        assert(stream.take(0) =~= Seq::<Lexeme>::empty());
        assert(stream.take(1).drop_first() =~= Seq::<Lexeme>::empty());
        assert(stream.take(1)[0] == stream[0]);
        assert(concat(stream.take(1).drop_first()) =~= Seq::<char>::empty());
        assert(concat(stream.take(1)) =~= text.take(n));
    } else {
        lemma_raw_stream_positions(dfa, text.skip(n), next, i - 1);
        assert(stream.take(i).drop_first() =~= rest.take(i - 1));
        assert(stream.take(i + 1).drop_first() =~= rest.take(i));
        lemma_after_concat(loc, text.take(n), concat(rest.take(i - 1)));
        lemma_after_concat(loc, text.take(n), concat(rest.take(i)));
    }
}

/// No gaps, no overlaps: each lexeme begins where the one before it ends, and
/// the first begins where the text begins.
pub proof fn lemma_raw_stream_contiguous(dfa: Dfa, text: Seq<char>, loc: Location, i: int)
    requires
        0 <= i < raw_stream(dfa, text, loc).len(),
    ensures
        raw_stream(dfa, text, loc)[0].start() == loc,
        i > 0 ==> raw_stream(dfa, text, loc)[i].start() == end_of(
            raw_stream(dfa, text, loc)[i - 1],
        ),
{
    lemma_raw_stream_positions(dfa, text, loc, 0);
    assert(raw_stream(dfa, text, loc).take(0) =~= Seq::<Lexeme>::empty());
    lemma_raw_stream_positions(dfa, text, loc, i);
    if i > 0 {
        lemma_raw_stream_positions(dfa, text, loc, i - 1);
    }
}

/// The trivia filter lets no trivia through, and adds nothing.
pub proof fn lemma_strip_drops_trivia(stream: Seq<Lexeme>)
    ensures
        strip(stream).len() <= stream.len(),
        forall|i: int| 0 <= i < strip(stream).len() ==> !is_trivia(#[trigger] strip(stream)[i]),
{
    stream.lemma_filter_len(kept());
    assert forall|i: int| 0 <= i < strip(stream).len() implies !is_trivia(
        #[trigger] strip(stream)[i],
    ) by {
        stream.lemma_filter_pred(kept(), i);
    }
}

/// The trivia filter keeps what is not trivia, in order: filtering a stream
/// that begins with `first` keeps `first` in front unless it is trivia.
pub proof fn lemma_strip_unfold(first: Lexeme, rest: Seq<Lexeme>)
    ensures
        strip(seq![first] + rest) == (if is_trivia(first) {
            strip(rest)
        } else {
            seq![first] + strip(rest)
        }),
{
    rest.lemma_filter_prepend(first, kept());
    if is_trivia(first) {
        assert(Seq::<Lexeme>::empty() + strip(rest) =~= strip(rest));
    }
}

/// Whether a lexeme is a physical newline.
pub open spec fn is_newline(lexeme: Lexeme) -> bool {
    lexeme.kind() == Some(TokenType::NewLine)
}

/// A stream without its physical newlines.
pub open spec fn without_newlines(stream: Seq<Lexeme>) -> Seq<Lexeme>
    decreases stream.len(),
{
    if stream.len() == 0 {
        Seq::empty()
    } else if is_newline(stream[0]) {
        without_newlines(stream.drop_first())
    } else {
        seq![stream[0]] + without_newlines(stream.drop_first())
    }
}

/// The nesting depth after the lexemes of `emitted`, from the depth `depth`.
pub open spec fn depth_after(emitted: Seq<Lexeme>, depth: int) -> int
    decreases emitted.len(),
{
    if emitted.len() == 0 {
        depth
    } else {
        depth_after(
            emitted.drop_first(),
            match emitted[0].kind() {
                Some(kind) => depth + depth_change(kind),
                None => depth,
            },
        )
    }
}

/// The category of the last token among `emitted`, or `prev` if there is
/// none.
pub open spec fn last_kind(emitted: Seq<Lexeme>, prev: Option<TokenType>) -> Option<TokenType>
    decreases emitted.len(),
{
    if emitted.len() == 0 {
        prev
    } else {
        last_kind(
            emitted.drop_first(),
            match emitted[0].kind() {
                Some(kind) => Some(kind),
                None => prev,
            },
        )
    }
}

/// The resolver drops physical newlines and nothing else: every other lexeme
/// passes, unchanged and in order.
pub proof fn lemma_resolve_drops_only_newlines(
    upstream: Seq<Lexeme>,
    depth: int,
    prev: Option<TokenType>,
)
    ensures
        without_newlines(resolve(upstream, depth, prev)) == without_newlines(upstream),
        resolve(upstream, depth, prev).len() <= upstream.len(),
    decreases upstream.len(),
{
    if upstream.len() > 0 {
        let first = upstream[0];
        let rest = upstream.drop_first();
        let out = resolve(upstream, depth, prev);
        match first {
            Lexeme::Unexpected { .. } => {
                lemma_resolve_drops_only_newlines(rest, depth, prev);
                assert(out.drop_first() =~= resolve(rest, depth, prev));
            },
            Lexeme::Token { kind, .. } => {
                if kind == TokenType::NewLine {
                    lemma_resolve_drops_only_newlines(rest, depth, prev);
                    lemma_resolve_drops_only_newlines(rest, depth, Some(kind));
                    let ahead = if rest.len() > 0 {
                        Some(rest[0])
                    } else {
                        None
                    };
                    if !suppressed(depth, prev, ahead) {
                        assert(out.drop_first() =~= resolve(rest, depth, Some(kind)));
                    }
                } else {
                    lemma_resolve_drops_only_newlines(rest, depth + depth_change(kind), Some(kind));
                    assert(out.drop_first() =~= resolve(
                        rest,
                        depth + depth_change(kind),
                        Some(kind),
                    ));
                }
            },
        }
    }
}

/// A physical newline that the resolver emits ends a statement: where it
/// stands, the nesting depth is not above zero, and the token emitted before
/// it is none after which the statement goes on.
pub proof fn lemma_emitted_newline_ends_statement(
    upstream: Seq<Lexeme>,
    depth: int,
    prev: Option<TokenType>,
    i: int,
)
    requires
        0 <= i < resolve(upstream, depth, prev).len(),
        is_newline(resolve(upstream, depth, prev)[i]),
    ensures
        depth_after(resolve(upstream, depth, prev).take(i), depth) <= 0,
        !(last_kind(resolve(upstream, depth, prev).take(i), prev) matches Some(kind)
            && continues_after(kind)),
    decreases upstream.len(),
{
    let out = resolve(upstream, depth, prev);
    let first = upstream[0];
    let rest = upstream.drop_first();
    let ahead = if rest.len() > 0 {
        Some(rest[0])
    } else {
        None
    };
    let dropped = first matches Lexeme::Token { kind, .. } && kind == TokenType::NewLine
        && suppressed(depth, prev, ahead);
    if dropped {
        lemma_emitted_newline_ends_statement(rest, depth, prev, i);
    } else {
        let next_depth = match first.kind() {
            Some(kind) => depth + depth_change(kind),
            None => depth,
        };
        let next_prev = match first.kind() {
            Some(kind) => Some(kind),
            None => prev,
        };
        let tail = resolve(rest, next_depth, next_prev);
        assert(out =~= seq![first] + tail);
        if i == 0 {
            assert(out.take(0) =~= Seq::<Lexeme>::empty());
        } else {
            assert(out[i] == tail[i - 1]);
            lemma_emitted_newline_ends_statement(rest, next_depth, next_prev, i - 1);
            assert(out.take(i)[0] == first);
            assert(out.take(i).drop_first() =~= tail.take(i - 1));
        }
    }
}

/// Lookahead: a physical newline that comes before a token which can only
/// continue the statement is dropped, whatever came before it.
pub proof fn lemma_newline_before_continuation_is_dropped(
    upstream: Seq<Lexeme>,
    depth: int,
    prev: Option<TokenType>,
)
    requires
        upstream.len() >= 2,
        is_newline(upstream[0]),
        upstream[1] matches Lexeme::Token { kind, .. } && continues_before(kind),
    ensures
        resolve(upstream, depth, prev) == resolve(upstream.drop_first(), depth, prev),
{
    assert(upstream.drop_first()[0] == upstream[1]);
}

/// Of the lexemes emitted, the last token's category is the category of the
/// last lexeme, if that is a token.
pub proof fn lemma_last_kind_push(emitted: Seq<Lexeme>, prev: Option<TokenType>, last: Lexeme)
    ensures
        last_kind(emitted.push(last), prev) == (match last.kind() {
            Some(kind) => Some(kind),
            None => last_kind(emitted, prev),
        }),
    decreases emitted.len(),
{
    if emitted.len() == 0 {
        assert(emitted.push(last).drop_first() =~= Seq::<Lexeme>::empty());
        reveal_with_fuel(last_kind, 2);
    } else {
        let next = match emitted[0].kind() {
            Some(kind) => Some(kind),
            None => prev,
        };
        assert(emitted.push(last).drop_first() =~= emitted.drop_first().push(last));
        lemma_last_kind_push(emitted.drop_first(), next, last);
    }
}

/// Runs of blank lines collapse: the resolver never emits two physical
/// newlines in a row, nor one first when the token before was a newline.
pub proof fn lemma_no_adjacent_newlines(
    upstream: Seq<Lexeme>,
    depth: int,
    prev: Option<TokenType>,
    i: int,
)
    requires
        0 <= i < resolve(upstream, depth, prev).len(),
        is_newline(resolve(upstream, depth, prev)[i]),
    ensures
        i == 0 ==> prev != Some(TokenType::NewLine),
        i > 0 ==> !is_newline(resolve(upstream, depth, prev)[i - 1]),
{
    let out = resolve(upstream, depth, prev);
    lemma_emitted_newline_ends_statement(upstream, depth, prev, i);
    if i == 0 {
        assert(out.take(0) =~= Seq::<Lexeme>::empty());
    } else {
        assert(out.take(i) =~= out.take(i - 1).push(out[i - 1]));
        lemma_last_kind_push(out.take(i - 1), prev, out[i - 1]);
    }
}

} // verus!
