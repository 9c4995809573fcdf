//! Source text as a sequence of characters addressed by byte offset.
//!
//! A `&str` is viewed as its characters; byte offsets are what the UTF-8
//! encoding of a prefix occupies. The functions here read one character at an
//! offset and borrow the slice between two offsets, with contracts over
//! character indices.

use vstd::prelude::*;
use vstd::string::*;
use vstd::utf8::*;

verus! {

/// The number of bytes `c` occupies in UTF-8.
pub open spec fn char_width(c: char) -> nat {
    encode_scalar(c as u32).len()
}

/// The number of bytes `s` occupies in UTF-8.
pub open spec fn byte_len(s: Seq<char>) -> nat {
    encode_utf8(s).len()
}

/// Encoding distributes over concatenation.
pub proof fn lemma_encode_concat(a: Seq<char>, b: Seq<char>)
    ensures
        encode_utf8(a + b) == encode_utf8(a) + encode_utf8(b),
    decreases a.len(),
{
    if a.len() == 0 {
        assert(a + b =~= b);
        assert(encode_utf8(a) + encode_utf8(b) =~= encode_utf8(b));
    } else {
        assert((a + b).drop_first() =~= a.drop_first() + b);
        lemma_encode_concat(a.drop_first(), b);
        assert(encode_utf8(a + b) =~= encode_utf8(a) + encode_utf8(b));
    }
}

/// Appending one character lengthens the encoding by that character's width.
pub proof fn lemma_byte_len_push(s: Seq<char>, c: char)
    ensures
        byte_len(s.push(c)) == byte_len(s) + char_width(c),
{
    lemma_encode_concat(s, seq![c]);
    assert(s.push(c) =~= s + seq![c]);
    assert(seq![c].drop_first() =~= Seq::<char>::empty());
    assert(encode_utf8(seq![c]) =~= encode_scalar(c as u32)) by {
        reveal_with_fuel(encode_utf8, 2);
    }
}

/// A prefix occupies at least one byte per character, and no more than the
/// whole text.
pub proof fn lemma_byte_len_prefix(s: Seq<char>, k: int)
    requires
        0 <= k <= s.len(),
    ensures
        k <= byte_len(s.take(k)) <= byte_len(s),
        byte_len(s) == byte_len(s.take(k)) + byte_len(s.skip(k)),
    decreases k,
{
    lemma_encode_concat(s.take(k), s.skip(k));
    assert(s.take(k) + s.skip(k) =~= s);
    if k > 0 {
        lemma_byte_len_prefix(s, k - 1);
        assert(s.take(k) =~= s.take(k - 1).push(s[k - 1]));
        lemma_byte_len_push(s.take(k - 1), s[k - 1]);
    } else {
        assert(s.take(0) =~= Seq::<char>::empty());
    }
}

/// The end of every prefix's encoding is a character boundary of the whole
/// encoding.
pub proof fn lemma_prefix_is_boundary(s: Seq<char>, k: int)
    requires
        0 <= k <= s.len(),
    ensures
        is_char_boundary(encode_utf8(s), byte_len(s.take(k)) as int),
    decreases k,
{
    broadcast use encode_utf8_valid_utf8;

    let bytes = encode_utf8(s);
    if k == 0 {
        assert(s.take(0) =~= Seq::<char>::empty());
    } else {
        let rest = s.drop_first();
        encode_utf8_first_scalar(s);
        assert(pop_first_scalar(bytes) =~= encode_utf8(rest));
        lemma_prefix_is_boundary(rest, k - 1);
        assert(s.take(k).drop_first() =~= rest.take(k - 1));
        lemma_byte_len_prefix(s, k);
        assert(byte_len(s.take(k)) == encode_scalar(s[0] as u32).len() + byte_len(
            rest.take(k - 1),
        ));
    }
}

/// Two texts with the same encoding are the same text.
pub proof fn lemma_encode_injective(a: Seq<char>, b: Seq<char>)
    requires
        encode_utf8(a) == encode_utf8(b),
    ensures
        a == b,
{
    encode_utf8_decode_utf8(a);
    encode_utf8_decode_utf8(b);
}

/// The bytes between the ends of two prefixes encode the characters between
/// them.
pub proof fn lemma_encode_subrange(s: Seq<char>, i: int, j: int)
    requires
        0 <= i <= j <= s.len(),
    ensures
        byte_len(s.take(i)) <= byte_len(s.take(j)) <= byte_len(s),
        encode_utf8(s).subrange(byte_len(s.take(i)) as int, byte_len(s.take(j)) as int)
            == encode_utf8(s.subrange(i, j)),
{
    lemma_byte_len_prefix(s, j);
    lemma_byte_len_prefix(s.take(j), i);
    assert(s.take(j).take(i) =~= s.take(i));
    lemma_encode_concat(s.take(j), s.skip(j));
    assert(s.take(j) + s.skip(j) =~= s);
    lemma_encode_concat(s.take(i), s.subrange(i, j));
    assert(s.take(i) + s.subrange(i, j) =~= s.take(j));
    assert(encode_utf8(s).subrange(byte_len(s.take(i)) as int, byte_len(s.take(j)) as int)
        =~= encode_utf8(s.subrange(i, j)));
}

/// The number of bytes `c` occupies in UTF-8.
pub fn width_of(c: char) -> (w: usize)
    ensures
        w == char_width(c),
        1 <= w <= 4,
{
    if c <= '\u{7f}' {
        1
    } else if c <= '\u{7ff}' {
        2
    } else if c <= '\u{ffff}' {
        3
    } else {
        4
    }
}

/// The slice of `source` from byte offset `from` to byte offset `to`, where
/// these are the offsets at which characters `i` and `j` begin.
pub(crate) fn slice_between<'a>(
    source: &'a str,
    from: usize,
    to: usize,
    Ghost(i): Ghost<int>,
    Ghost(j): Ghost<int>,
) -> (r: &'a str)
    requires
        0 <= i <= j <= source@.len(),
        from == byte_len(source@.take(i)),
        to == byte_len(source@.take(j)),
    ensures
        r@ == source@.subrange(i, j),
{
    proof {
        lemma_prefix_is_boundary(source@, j);
        lemma_encode_subrange(source@, 0, j);
        assert(source@.take(0) =~= Seq::<char>::empty());
    }
    let (head, _) = source.split_at(to);
    proof {
        assert(source@.subrange(0, j) =~= source@.take(j));
        lemma_encode_injective(head@, source@.take(j));
        lemma_prefix_is_boundary(head@, i);
        assert(head@.take(i) =~= source@.take(i));
        lemma_encode_subrange(head@, i, j);
        assert(head@.take(j) =~= head@);
    }
    let (_, tail) = head.split_at(from);
    proof {
        assert(head@.subrange(i, j) =~= source@.subrange(i, j));
        lemma_encode_injective(tail@, source@.subrange(i, j));
    }
    tail
}

/// The character of `source` that begins at byte offset `at`, which is where
/// character `k` begins; nothing at the end of the text.
pub(crate) fn char_at(source: &str, at: usize, Ghost(k): Ghost<int>) -> (r: Option<char>)
    requires
        0 <= k <= source@.len(),
        at == byte_len(source@.take(k)),
    ensures
        r == (if k < source@.len() {
            Some(source@[k])
        } else {
            None
        }),
{
    proof {
        lemma_prefix_is_boundary(source@, k);
        lemma_encode_subrange(source@, k, source@.len() as int);
        assert(source@.take(source@.len() as int) =~= source@);
    }
    let (_, rest) = source.split_at(at);
    proof {
        lemma_encode_injective(rest@, source@.subrange(k, source@.len() as int));
    }
    let mut it = rest.chars();
    let c = it.next();
    proof {
        broadcast use group_string_axioms;

    }
    c
}

} // verus!
