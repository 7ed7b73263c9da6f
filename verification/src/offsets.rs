//! Byte offsets and character indices in UTF-8 text.
//!
//! A text is modelled as its sequence of characters. Positions handed across
//! the library's interface are byte offsets into the UTF-8 encoding of that
//! sequence; the functions here convert between the two.

use vstd::prelude::*;
use vstd::utf8::*;

verus! {

/// Number of bytes in the UTF-8 encoding of `c`.
pub open spec fn char_width(c: char) -> int {
    encode_scalar(c as u32).len() as int
}

/// Number of bytes in the UTF-8 encoding of `s`.
pub open spec fn byte_len(s: Seq<char>) -> int {
    encode_utf8(s).len() as int
}

/// Byte offset at which character `k` of `s` begins; for `k == s.len()` the
/// offset just past the last character.
pub open spec fn offset_of(s: Seq<char>, k: int) -> int
    recommends
        0 <= k <= s.len(),
{
    byte_len(s.take(k))
}

/// True when `p` is the byte offset of a character of `s`, or of its end.
pub open spec fn valid_offset(s: Seq<char>, p: int) -> bool {
    exists|k: int| 0 <= k <= s.len() && offset_of(s, k) == p
}

/// Index of the character that begins at byte offset `p`.
pub open spec fn index_of(s: Seq<char>, p: int) -> int
    recommends
        valid_offset(s, p),
{
    choose|k: int| 0 <= k <= s.len() && offset_of(s, k) == p
}

/// Width of an encoded character as announced by its leading byte.
pub open spec fn leading_width(b: u8) -> int {
    if b < 0x80 {
        1
    } else if b < 0xe0 {
        2
    } else if b < 0xf0 {
        3
    } else {
        4
    }
}

/// The encoding of a concatenation is the concatenation of the encodings.
pub proof fn lemma_encode_concat(a: Seq<char>, b: Seq<char>)
    ensures
        encode_utf8(a + b) == encode_utf8(a) + encode_utf8(b),
    decreases a.len(),
{
    if a.len() == 0 {
        assert(a + b =~= b);
        assert(encode_utf8(a) + encode_utf8(b) =~= encode_utf8(b));
    } else {
        assert((a + b).drop_first() =~= a.drop_first() + b);
        lemma_encode_concat(a.drop_first(), b);
        assert(encode_utf8(a + b) =~= encode_utf8(a) + encode_utf8(b));
    }
}

/// A single character encodes to its scalar encoding, one to four bytes long.
pub proof fn lemma_encode_single(c: char)
    ensures
        encode_utf8(seq![c]) == encode_scalar(c as u32),
        1 <= char_width(c) <= 4,
{
    reveal_with_fuel(encode_utf8, 2);
    assert(seq![c].drop_first() =~= Seq::<char>::empty());
    assert(encode_utf8(seq![c]) =~= encode_scalar(c as u32));
}

/// The first and the last offset of a text.
pub proof fn lemma_offset_ends(s: Seq<char>)
    ensures
        offset_of(s, 0) == 0,
        offset_of(s, s.len() as int) == byte_len(s),
        valid_offset(s, 0),
        valid_offset(s, byte_len(s)),
{
    assert(s.take(0) =~= Seq::<char>::empty());
    assert(s.take(s.len() as int) =~= s);
    assert(offset_of(s, 0) == 0);
    assert(offset_of(s, s.len() as int) == byte_len(s));
}

/// The bytes between two character offsets encode the characters between them.
pub proof fn lemma_encode_subrange(s: Seq<char>, j: int, k: int)
    requires
        0 <= j <= k <= s.len(),
    ensures
        0 <= offset_of(s, j) <= offset_of(s, k) <= byte_len(s),
        offset_of(s, k) - offset_of(s, j) == byte_len(s.subrange(j, k)),
        encode_utf8(s).subrange(offset_of(s, j), offset_of(s, k)) == encode_utf8(s.subrange(j, k)),
{
    let a = s.take(j);
    let m = s.subrange(j, k);
    let z = s.skip(k);
    assert(s.take(k) =~= a + m);
    assert(s =~= s.take(k) + z);
    lemma_encode_concat(a, m);
    lemma_encode_concat(s.take(k), z);
    assert(encode_utf8(s).subrange(offset_of(s, j), offset_of(s, k)) =~= encode_utf8(m));
}

/// Each character moves the offset on by its own width.
pub proof fn lemma_offset_step(s: Seq<char>, k: int)
    requires
        0 <= k < s.len(),
    ensures
        offset_of(s, k + 1) == offset_of(s, k) + char_width(s[k]),
        1 <= char_width(s[k]) <= 4,
        0 <= offset_of(s, k) < offset_of(s, k + 1) <= byte_len(s),
{
    lemma_encode_subrange(s, k, k + 1);
    assert(s.subrange(k, k + 1) =~= seq![s[k]]);
    lemma_encode_single(s[k]);
}

/// Offsets grow strictly with the character index.
pub proof fn lemma_offset_increasing(s: Seq<char>, j: int, k: int)
    requires
        0 <= j < k <= s.len(),
    ensures
        offset_of(s, j) < offset_of(s, k),
    decreases k - j,
{
    lemma_offset_step(s, k - 1);
    if j < k - 1 {
        lemma_offset_increasing(s, j, k - 1);
    }
}

/// `index_of` inverts `offset_of`.
pub proof fn lemma_index_of_offset(s: Seq<char>, k: int)
    requires
        0 <= k <= s.len(),
    ensures
        valid_offset(s, offset_of(s, k)),
        index_of(s, offset_of(s, k)) == k,
{
    let i = index_of(s, offset_of(s, k));
    if i < k {
        lemma_offset_increasing(s, i, k);
    } else if k < i {
        lemma_offset_increasing(s, k, i);
    }
}

/// `offset_of` inverts `index_of` on valid offsets.
pub proof fn lemma_offset_of_index(s: Seq<char>, p: int)
    requires
        valid_offset(s, p),
    ensures
        0 <= index_of(s, p) <= s.len(),
        offset_of(s, index_of(s, p)) == p,
        0 <= p <= byte_len(s),
        index_of(s, p) == s.len() <==> p == byte_len(s),
        index_of(s, p) == 0 <==> p == 0,
{
    let i = index_of(s, p);
    lemma_encode_subrange(s, 0, i);
    lemma_encode_subrange(s, i, s.len() as int);
    lemma_offset_ends(s);
    if i < s.len() {
        lemma_offset_increasing(s, i, s.len() as int);
    }
    if 0 < i {
        lemma_offset_increasing(s, 0, i);
    }
}

/// What the encoding holds where character `k` begins: a leading byte that
/// announces the character's width, followed by continuation bytes only. A
/// leading byte below 0x80 is the character itself.
pub proof fn lemma_char_bytes(s: Seq<char>, k: int)
    requires
        0 <= k < s.len(),
    ensures
        ({
            let bytes = encode_utf8(s);
            let p = offset_of(s, k);
            let w = char_width(s[k]);
            &&& 0 <= p < p + w <= bytes.len()
            &&& !is_continuation_byte(bytes[p])
            &&& w == leading_width(bytes[p])
            &&& forall|q: int| p < q < p + w ==> is_continuation_byte(#[trigger] bytes[q])
            &&& (bytes[p] < 0x80 <==> (s[k] as u32) < 0x80)
            &&& (bytes[p] < 0x80 ==> bytes[p] as u32 == s[k] as u32)
        }),
{
    let bytes = encode_utf8(s);
    let p = offset_of(s, k);
    let t = s.skip(k);
    let tail = encode_utf8(t);
    lemma_offset_step(s, k);
    lemma_offset_ends(s);
    lemma_encode_subrange(s, k, s.len() as int);
    assert(s.subrange(k, s.len() as int) =~= t);
    assert(tail == bytes.subrange(p, bytes.len() as int));
    encode_utf8_first_scalar(t);
    assert(t[0] == s[k]);
    let b = tail[0];
    assert(b == bytes[p]);
    assert forall|q: int| p < q < p + char_width(s[k]) implies is_continuation_byte(
        #[trigger] bytes[q],
    ) by {
        assert(bytes[q] == tail[q - p]);
    }
    if b < 0x80 {
        assert(b & 0x7f == b) by (bit_vector)
            requires
                b < 0x80,
        ;
    }
    let c = s[k] as u32;
    if c < 0x80 {
        assert(has_width_1_encoding(c));
    }
}

/// The offsets of characters are exactly the character boundaries of the
/// encoding.
pub proof fn lemma_valid_offset_is_char_boundary(s: Seq<char>, p: int)
    ensures
        valid_offset(s, p) <==> is_char_boundary(encode_utf8(s), p),
{
    let bytes = encode_utf8(s);
    encode_utf8_valid_utf8(s);
    if valid_offset(s, p) {
        let k = index_of(s, p);
        lemma_offset_of_index(s, p);
        if k == s.len() {
            is_char_boundary_start_end_of_seq(bytes);
        } else {
            lemma_char_bytes(s, k);
            is_char_boundary_iff_not_is_continuation_byte(bytes, p);
        }
    }
    if is_char_boundary(bytes, p) {
        assert(0 <= p <= bytes.len());
        valid_utf8_split(bytes, p);
        decode_utf8_split(bytes, p);
        encode_utf8_decode_utf8(s);
        let head = bytes.subrange(0, p);
        let k = decode_utf8(head).len() as int;
        assert(s.take(k) =~= decode_utf8(head));
        decode_utf8_encode_utf8(head);
        assert(offset_of(s, k) == p);
    }
}

/// A byte of the encoding that is no continuation byte begins a character.
pub proof fn lemma_leading_byte_offset(s: Seq<char>, p: int)
    requires
        0 <= p < byte_len(s),
        !is_continuation_byte(encode_utf8(s)[p]),
    ensures
        valid_offset(s, p),
        index_of(s, p) < s.len(),
{
    encode_utf8_valid_utf8(s);
    is_char_boundary_iff_not_is_continuation_byte(encode_utf8(s), p);
    lemma_valid_offset_is_char_boundary(s, p);
    lemma_offset_of_index(s, p);
}

/// Width in bytes of the character of `text` that begins at offset `p`.
pub fn char_width_at(text: &str, p: usize) -> (w: usize)
    requires
        valid_offset(text@, p as int),
        p < byte_len(text@),
    ensures
        w == char_width(text@[index_of(text@, p as int)]),
        p + w == offset_of(text@, index_of(text@, p as int) + 1),
        p + w <= byte_len(text@) <= usize::MAX,
        valid_offset(text@, p + w),
{
    let bytes = text.as_bytes();
    proof {
        let k = index_of(text@, p as int);
        lemma_offset_of_index(text@, p as int);
        lemma_char_bytes(text@, k);
        lemma_offset_step(text@, k);
        lemma_index_of_offset(text@, k + 1);
    }
    let b = bytes[p];
    if b < 0x80 {
        1
    } else if b < 0xe0 {
        2
    } else if b < 0xf0 {
        3
    } else {
        4
    }
}

/// The part of `text` between the byte offsets `a` and `b`.
pub fn slice<'a>(text: &'a str, a: usize, b: usize) -> (part: &'a str)
    requires
        valid_offset(text@, a as int),
        valid_offset(text@, b as int),
        a <= b,
    ensures
        part@ == text@.subrange(index_of(text@, a as int), index_of(text@, b as int)),
        byte_len(part@) == b - a,
{
    proof {
        lemma_valid_offset_is_char_boundary(text@, b as int);
    }
    let (head, _) = text.split_at(b);
    proof {
        let s = text@;
        let j = index_of(s, a as int);
        let k = index_of(s, b as int);
        lemma_offset_of_index(s, a as int);
        lemma_offset_of_index(s, b as int);
        if k < j {
            lemma_offset_increasing(s, k, j);
        }
        lemma_encode_subrange(s, 0, k);
        assert(s.subrange(0, k) =~= s.take(k));
        encode_utf8_decode_utf8(head@);
        encode_utf8_decode_utf8(s.take(k));
        assert(head@ == s.take(k));
        lemma_encode_subrange(head@, 0, j);
        lemma_encode_subrange(s, 0, j);
        assert(head@.take(j) =~= s.take(j));
        assert(offset_of(head@, j) == a);
        lemma_valid_offset_is_char_boundary(head@, a as int);
    }
    let (_, part) = head.split_at(a);
    proof {
        let s = text@;
        let j = index_of(s, a as int);
        let k = index_of(s, b as int);
        lemma_offset_ends(head@);
        lemma_encode_subrange(head@, j, k);
        assert(head@.subrange(j, k) =~= s.subrange(j, k));
        encode_utf8_decode_utf8(part@);
        encode_utf8_decode_utf8(s.subrange(j, k));
    }
    part
}

/// Offsets keep the order of the character indices.
pub proof fn lemma_offset_order(s: Seq<char>, p: int, q: int)
    requires
        valid_offset(s, p),
        valid_offset(s, q),
    ensures
        p <= q <==> index_of(s, p) <= index_of(s, q),
        p < q <==> index_of(s, p) < index_of(s, q),
{
    let j = index_of(s, p);
    let k = index_of(s, q);
    lemma_offset_of_index(s, p);
    lemma_offset_of_index(s, q);
    if j < k {
        lemma_offset_increasing(s, j, k);
    } else if k < j {
        lemma_offset_increasing(s, k, j);
    }
}

/// Number of characters of `text` between the byte offsets `a` and `b`.
pub fn count_chars(text: &str, a: usize, b: usize) -> (n: usize)
    requires
        valid_offset(text@, a as int),
        valid_offset(text@, b as int),
        a <= b,
    ensures
        n == index_of(text@, b as int) - index_of(text@, a as int),
{
    let mut q: usize = a;
    let mut n: usize = 0;
    while q < b
        invariant
            valid_offset(text@, a as int),
            valid_offset(text@, b as int),
            valid_offset(text@, q as int),
            a <= q <= b,
            n == index_of(text@, q as int) - index_of(text@, a as int),
            n <= q - a,
        decreases b - q,
    {
        proof {
            lemma_offset_of_index(text@, b as int);
            lemma_offset_of_index(text@, q as int);
            lemma_offset_order(text@, q as int, b as int);
            let k = index_of(text@, q as int);
            lemma_index_of_offset(text@, k + 1);
            lemma_offset_order(text@, offset_of(text@, k + 1), b as int);
        }
        let w = char_width_at(text, q);
        q = q + w;
        n = n + 1;
    }
    n
}

/// Byte offset reached from offset `start` after `n` further characters.
pub fn offset_after(text: &str, start: usize, n: usize) -> (r: usize)
    requires
        valid_offset(text@, start as int),
        index_of(text@, start as int) + n <= text@.len(),
    ensures
        r == offset_of(text@, index_of(text@, start as int) + n),
        valid_offset(text@, r as int),
        start <= r <= byte_len(text@),
{
    let mut q: usize = start;
    let mut done: usize = 0;
    while done < n
        invariant
            valid_offset(text@, start as int),
            valid_offset(text@, q as int),
            index_of(text@, start as int) + n <= text@.len(),
            done <= n,
            start <= q,
            index_of(text@, q as int) == index_of(text@, start as int) + done,
        decreases n - done,
    {
        proof {
            lemma_offset_of_index(text@, q as int);
            let k = index_of(text@, q as int);
            lemma_index_of_offset(text@, k + 1);
        }
        let w = char_width_at(text, q);
        q = q + w;
        done = done + 1;
    }
    proof {
        lemma_offset_of_index(text@, q as int);
    }
    q
}

} // verus!
