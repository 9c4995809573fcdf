//! Syntax-tree nodes that remember where in the source they came from.

use crate::text::{byte_len, lemma_encode_injective, lemma_encode_subrange};
use crate::token::Location;
use vstd::prelude::*;
use vstd::std_specs::convert::FromSpecImpl;
use vstd::string::*;
use vstd::utf8::*;

verus! {

/// A value with the locations between which it was found.
#[derive(Debug)]
pub struct Node<T> {
    pub node: T,
    pub start: Location,
    pub end: Location,
}

/// A character boundary of a text is a character boundary of every prefix
/// that ends at a character boundary and reaches it.
pub proof fn lemma_boundary_in_prefix(bytes: Seq<u8>, from: int, to: int)
    requires
        valid_utf8(bytes),
        0 <= from <= to <= bytes.len(),
        is_char_boundary(bytes, from),
        is_char_boundary(bytes, to),
    ensures
        valid_utf8(bytes.subrange(0, to)),
        is_char_boundary(bytes.subrange(0, to), from),
{
    let prefix = bytes.subrange(0, to);
    valid_utf8_split(bytes, to);
    if from < to {
        is_char_boundary_iff_not_is_continuation_byte(bytes, from);
        is_char_boundary_iff_not_is_continuation_byte(prefix, from);
    } else {
        is_char_boundary_start_end_of_seq(prefix);
    }
}

impl<T> Node<T> {
    /// A node for `node`, found between `start` and `end`.
    pub fn new(node: T, start: Location, end: Location) -> (r: Node<T>)
        ensures
            r.node == node,
            r.start == start,
            r.end == end,
    {
        Node { node: node, start: start, end: end }
    }

    /// The node taken apart: its start, its value and its end.
    pub fn unwrap(self) -> (r: (Location, T, Location))
        ensures
            r.0 == self.start,
            r.1 == self.node,
            r.2 == self.end,
    {
        (self.start, self.node, self.end)
    }

    /// Whether the node's byte offsets delimit a slice of `src`: they are in
    /// order, within the text, and on character boundaries.
    pub open spec fn fits(&self, src: Seq<char>) -> bool {
        &&& self.start.index <= self.end.index <= byte_len(src)
        &&& is_char_boundary(encode_utf8(src), self.start.index as int)
        &&& is_char_boundary(encode_utf8(src), self.end.index as int)
    }

    /// The text of `src` between the node's byte offsets.
    pub fn span<'s>(&self, src: &'s str) -> (r: &'s str)
        requires
            self.fits(src@),
        ensures
            encode_utf8(r@) == encode_utf8(src@).subrange(
                self.start.index as int,
                self.end.index as int,
            ),
            forall|i: int, j: int|
                0 <= i <= j <= src@.len() && self.start.index == byte_len(#[trigger] src@.take(i))
                    && self.end.index == byte_len(#[trigger] src@.take(j)) ==> r@
                    == src@.subrange(i, j),
    {
        proof {
            encode_utf8_valid_utf8(src@);
            lemma_boundary_in_prefix(
                encode_utf8(src@),
                self.start.index as int,
                self.end.index as int,
            );
        }
        let (head, _) = src.split_at(self.end.index);
        let (_, tail) = head.split_at(self.start.index);
        proof {
            assert(encode_utf8(tail@) =~= encode_utf8(src@).subrange(
                self.start.index as int,
                self.end.index as int,
            ));
            assert forall|i: int, j: int|
                0 <= i <= j <= src@.len() && self.start.index == byte_len(#[trigger] src@.take(i))
                    && self.end.index == byte_len(#[trigger] src@.take(j)) implies tail@
                == src@.subrange(i, j) by {
                lemma_encode_subrange(src@, i, j);
                lemma_encode_injective(tail@, src@.subrange(i, j));
            }
        }
        tail
    }
}

impl<T> From<(Location, T, Location)> for Node<T> {
    fn from(parts: (Location, T, Location)) -> (r: Node<T>) {
        Node::new(parts.1, parts.0, parts.2)
    }
}

impl<T> FromSpecImpl<(Location, T, Location)> for Node<T> {
    open spec fn obeys_from_spec() -> bool {
        true
    }

    open spec fn from_spec(parts: (Location, T, Location)) -> Node<T> {
        Node { node: parts.1, start: parts.0, end: parts.2 }
    }
}

} // verus!
