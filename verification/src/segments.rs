//! Runs of text bounded by a separator character, such as the lines of a
//! buffer (bounded by newlines) or its words (bounded by spaces).

use vstd::prelude::*;
use vstd::utf8::*;
use crate::offsets::{
    byte_len, index_of, lemma_char_bytes, lemma_index_of_offset, lemma_leading_byte_offset,
    lemma_offset_ends, lemma_offset_of_index, lemma_offset_order, lemma_offset_step, offset_of,
    valid_offset,
};

verus! {

/// Index at which the run around position `i` begins: just behind the nearest
/// separator in front of `i`, or 0 where there is none.
pub open spec fn segment_start(s: Seq<char>, i: int, sep: char) -> int
    decreases i,
{
    if i <= 0 {
        0
    } else if s[i - 1] == sep {
        i
    } else {
        segment_start(s, i - 1, sep)
    }
}

/// Index at which the run around position `i` ends: that of the nearest
/// separator at or behind `i`, or the length of the text where there is none.
pub open spec fn segment_end(s: Seq<char>, i: int, sep: char) -> int
    decreases s.len() - i,
{
    if i >= s.len() {
        s.len() as int
    } else if s[i] == sep {
        i
    } else {
        segment_end(s, i + 1, sep)
    }
}

/// The start of a run lies at or before the position, directly behind a
/// separator or at the start of the text, with no separator in between.
pub proof fn lemma_segment_start(s: Seq<char>, i: int, sep: char)
    requires
        0 <= i <= s.len(),
    ensures
        0 <= segment_start(s, i, sep) <= i,
        segment_start(s, i, sep) == 0 || s[segment_start(s, i, sep) - 1] == sep,
        forall|k: int| segment_start(s, i, sep) <= k < i ==> s[k] != sep,
    decreases i,
{
    if i > 0 && s[i - 1] != sep {
        lemma_segment_start(s, i - 1, sep);
    }
}

/// A position with the properties of a run's start is that start.
pub proof fn lemma_segment_start_is(s: Seq<char>, i: int, sep: char, j: int)
    requires
        0 <= j <= i <= s.len(),
        j == 0 || s[j - 1] == sep,
        forall|k: int| j <= k < i ==> s[k] != sep,
    ensures
        segment_start(s, i, sep) == j,
    decreases i,
{
    if j < i {
        lemma_segment_start_is(s, i - 1, sep, j);
    }
}

/// The end of a run lies at or behind the position, on a separator or at the
/// end of the text, with no separator in between.
pub proof fn lemma_segment_end(s: Seq<char>, i: int, sep: char)
    requires
        0 <= i <= s.len(),
    ensures
        i <= segment_end(s, i, sep) <= s.len(),
        segment_end(s, i, sep) == s.len() || s[segment_end(s, i, sep)] == sep,
        forall|k: int| i <= k < segment_end(s, i, sep) ==> s[k] != sep,
    decreases s.len() - i,
{
    if i < s.len() && s[i] != sep {
        lemma_segment_end(s, i + 1, sep);
    }
}

/// A position with the properties of a run's end is that end.
pub proof fn lemma_segment_end_is(s: Seq<char>, i: int, sep: char, j: int)
    requires
        0 <= i <= j <= s.len(),
        j == s.len() || s[j] == sep,
        forall|k: int| i <= k < j ==> s[k] != sep,
    ensures
        segment_end(s, i, sep) == j,
    decreases j - i,
{
    if i < j {
        lemma_segment_end_is(s, i + 1, sep, j);
    }
}

/// A separator below 0x80 occupies one byte of its own: the characters equal
/// to it are exactly the places where the encoding holds that byte.
pub proof fn lemma_separator_byte(s: Seq<char>, k: int, sep: u8)
    requires
        0 <= k < s.len(),
        sep < 0x80,
    ensures
        s[k] == sep as char <==> encode_utf8(s)[offset_of(s, k)] == sep,
        s[k] == sep as char ==> offset_of(s, k + 1) == offset_of(s, k) + 1,
{
    lemma_char_bytes(s, k);
    lemma_offset_step(s, k);
    let c = s[k];
    let b = encode_utf8(s)[offset_of(s, k)];
    assert((sep as char) as u32 == sep as u32);
    if c == sep as char {
        assert(c as u32 == sep as u32);
        assert(has_width_1_encoding(c as u32));
    }
    if b == sep {
        char_u32_cast(c, c as u32);
        assert((sep as u32) as char == sep as char);
    }
}

/// Byte offset at which the run around offset `p` begins.
pub fn segment_start_offset(text: &str, p: usize, sep: u8) -> (r: usize)
    requires
        valid_offset(text@, p as int),
        sep < 0x80,
    ensures
        r == offset_of(text@, segment_start(text@, index_of(text@, p as int), sep as char)),
        valid_offset(text@, r as int),
        r <= p,
{
    let bytes = text.as_bytes();
    proof {
        lemma_offset_of_index(text@, p as int);
    }
    let mut j: usize = p;
    while j > 0 && bytes[j - 1] != sep
        invariant
            j <= p <= bytes@.len(),
            forall|q: int| j <= q < p ==> bytes@[q] != sep,
        decreases j,
    {
        j = j - 1;
    }
    proof {
        let s = text@;
        let i = index_of(s, p as int);
        let m = if j == 0 {
            lemma_offset_ends(s);
            lemma_index_of_offset(s, 0);
            0int
        } else {
            lemma_leading_byte_offset(s, j - 1);
            let m1 = index_of(s, j - 1);
            lemma_offset_of_index(s, j - 1);
            lemma_separator_byte(s, m1, sep);
            lemma_index_of_offset(s, m1 + 1);
            m1 + 1
        };
        assert(offset_of(s, m) == j);
        lemma_offset_order(s, j as int, p as int);
        assert forall|k: int| m <= k < i implies s[k] != sep as char by {
            lemma_separator_byte(s, k, sep);
            lemma_index_of_offset(s, k);
            lemma_offset_order(s, offset_of(s, k), p as int);
            lemma_offset_order(s, j as int, offset_of(s, k));
        }
        lemma_segment_start_is(s, i, sep as char, m);
    }
    j
}

/// Byte offset at which the run around offset `p` ends.
pub fn segment_end_offset(text: &str, p: usize, sep: u8) -> (r: usize)
    requires
        valid_offset(text@, p as int),
        sep < 0x80,
    ensures
        r == offset_of(text@, segment_end(text@, index_of(text@, p as int), sep as char)),
        valid_offset(text@, r as int),
        p <= r <= byte_len(text@),
{
    let bytes = text.as_bytes();
    proof {
        lemma_offset_of_index(text@, p as int);
    }
    let mut j: usize = p;
    while j < bytes.len() && bytes[j] != sep
        invariant
            p <= j <= bytes@.len(),
            forall|q: int| p <= q < j ==> bytes@[q] != sep,
        decreases bytes@.len() - j,
    {
        j = j + 1;
    }
    proof {
        let s = text@;
        let i = index_of(s, p as int);
        let m = if j == bytes@.len() {
            lemma_offset_ends(s);
            lemma_index_of_offset(s, s.len() as int);
            s.len() as int
        } else {
            lemma_leading_byte_offset(s, j as int);
            let m1 = index_of(s, j as int);
            lemma_offset_of_index(s, j as int);
            lemma_separator_byte(s, m1, sep);
            m1
        };
        assert(offset_of(s, m) == j);
        lemma_offset_order(s, p as int, j as int);
        assert forall|k: int| i <= k < m implies s[k] != sep as char by {
            lemma_separator_byte(s, k, sep);
            lemma_index_of_offset(s, k);
            lemma_offset_order(s, p as int, offset_of(s, k));
            lemma_offset_order(s, offset_of(s, k), j as int);
        }
        lemma_segment_end_is(s, i, sep as char, m);
    }
    j
}

} // verus!
