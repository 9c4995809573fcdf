//! Position tracking: how a [`Location`] moves as characters are consumed.

use crate::text::{byte_len, char_width, lemma_byte_len_prefix, lemma_byte_len_push, width_of};
use crate::token::Location;
use vstd::prelude::*;

verus! {

impl Location {
    /// Where every text begins: line 1, column 1, byte 0.
    pub open spec fn origin() -> Location {
        Location { line: 1, column: 1, index: 0 }
    }

    /// The location just past `c`, for a `c` that begins at `self`: a newline
    /// starts the next line at column 1, any other character takes one column;
    /// the byte offset grows by the character's encoded width.
    pub open spec fn step(self, c: char) -> Location {
        if c == '\n' {
            Location {
                line: (self.line + 1) as usize,
                column: 1,
                index: (self.index + char_width(c)) as usize,
            }
        } else {
            Location {
                line: self.line,
                column: (self.column + 1) as usize,
                index: (self.index + char_width(c)) as usize,
            }
        }
    }

    /// The location just past the text `s`, for an `s` that begins at `self`.
    pub open spec fn after(self, s: Seq<char>) -> Location
        decreases s.len(),
    {
        if s.len() == 0 {
            self
        } else {
            self.after(s.drop_last()).step(s.last())
        }
    }

    /// The location at which a text begins.
    pub fn start() -> (r: Location)
        ensures
            r == Location::origin(),
    {
        Location { line: 1, column: 1, index: 0 }
    }

    /// Moves past one character.
    pub fn advance(self, c: char) -> (r: Location)
        requires
            self.line < usize::MAX,
            self.column < usize::MAX,
            self.index + char_width(c) <= usize::MAX,
        ensures
            r == self.step(c),
    {
        let index: usize = self.index + width_of(c);
        if c == '\n' {
            Location { line: self.line + 1, column: 1, index }
        } else {
            Location { line: self.line, column: self.column + 1, index }
        }
    }
}

/// Moving past `s` and then `c` is moving past `s` followed by `c`.
pub proof fn lemma_after_push(loc: Location, s: Seq<char>, c: char)
    ensures
        loc.after(s.push(c)) == loc.after(s).step(c),
{
    assert(s.push(c).drop_last() =~= s);
}

/// Moving past `a` and then past `b` is moving past `a + b`.
pub proof fn lemma_after_concat(loc: Location, a: Seq<char>, b: Seq<char>)
    ensures
        loc.after(a + b) == loc.after(a).after(b),
    decreases b.len(),
{
    if b.len() == 0 {
        assert(a + b =~= a);
    } else {
        assert((a + b).drop_last() =~= a + b.drop_last());
        lemma_after_concat(loc, a, b.drop_last());
    }
}

/// Counted from the origin, the byte offset is the encoded length of what was
/// consumed, and neither line nor column exceeds one more than the number of
/// characters consumed, as long as that number fits the machine's integers.
pub proof fn lemma_after_origin_bounds(s: Seq<char>)
    requires
        byte_len(s) < usize::MAX,
    ensures
        Location::origin().after(s).index == byte_len(s),
        1 <= Location::origin().after(s).line <= s.len() + 1,
        1 <= Location::origin().after(s).column <= s.len() + 1,
    decreases s.len(),
{
    if s.len() > 0 {
        let init = s.drop_last();
        assert(init.push(s.last()) =~= s);
        lemma_byte_len_push(init, s.last());
        lemma_after_origin_bounds(init);
        lemma_byte_len_prefix(s, s.len() as int);
        assert(s.take(s.len() as int) =~= s);
    } else {
        assert(byte_len(s) == 0);
    }
}

} // verus!
