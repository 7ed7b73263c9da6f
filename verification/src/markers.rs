//! The inline markers that show a selection inside the buffer text: `<|` in
//! front of the selected span and `|>` behind it.

use vstd::prelude::*;
use vstd::string::*;
use vstd::utf8::*;
use crate::offsets::{
    byte_len, char_width_at, index_of, lemma_encode_concat, lemma_encode_subrange,
    lemma_index_of_offset, lemma_leading_byte_offset, lemma_offset_ends, lemma_offset_of_index,
    lemma_offset_order, lemma_offset_step, offset_of, slice, valid_offset,
};
use crate::segments::lemma_separator_byte;

verus! {

/// The marker written in front of a selection.
pub open spec fn open_marker() -> Seq<char> {
    seq!['<', '|']
}

/// The marker written behind a selection.
pub open spec fn close_marker() -> Seq<char> {
    seq!['|', '>']
}

/// True when `pat` stands in `s` at index `i`.
pub open spec fn occurs_at(s: Seq<char>, pat: Seq<char>, i: int) -> bool {
    0 <= i && i + pat.len() <= s.len() && s.subrange(i, i + pat.len()) == pat
}

/// `s` without the occurrences of `pat`, found from left to right; text that
/// only comes together once an occurrence is taken out is not an occurrence.
pub open spec fn remove_all(s: Seq<char>, pat: Seq<char>) -> Seq<char>
    decreases s.len(),
{
    if pat.len() == 0 || s.len() == 0 {
        s
    } else if occurs_at(s, pat, 0) {
        remove_all(s.skip(pat.len() as int), pat)
    } else {
        seq![s[0]] + remove_all(s.skip(1), pat)
    }
}

/// The marker-free text of a buffer: every opening marker is taken out, then
/// every closing marker.
pub open spec fn strip_markers_spec(s: Seq<char>) -> Seq<char> {
    remove_all(remove_all(s, open_marker()), close_marker())
}

/// `s` with the characters from index `a` up to index `b` set between the two
/// markers.
pub open spec fn render_spec(s: Seq<char>, a: int, b: int) -> Seq<char> {
    s.take(a) + open_marker() + s.subrange(a, b) + close_marker() + s.skip(b)
}

/// Text without any occurrence of a two-character pattern whose characters
/// each take one byte.
fn remove_pair(text: &str, first: u8, second: u8) -> (out: String)
    requires
        first < 0x80,
        second < 0x80,
    ensures
        out@ == remove_all(text@, seq![first as char, second as char]),
{
    let bytes = text.as_bytes();
    let n = bytes.len();
    let ghost s = text@;
    let ghost pat = seq![first as char, second as char];
    let mut out = String::new();
    let mut seg: usize = 0;
    let mut p: usize = 0;
    proof {
        lemma_offset_ends(s);
        lemma_index_of_offset(s, 0);
        assert(s.skip(0) =~= s);
        assert(out@ + s.subrange(0, 0) + remove_all(s.skip(0), pat) =~= remove_all(s, pat));
    }
    while p < n
        invariant
            s == text@,
            bytes@ == encode_utf8(s),
            n == bytes@.len(),
            pat == seq![first as char, second as char],
            first < 0x80,
            second < 0x80,
            valid_offset(s, p as int),
            valid_offset(s, seg as int),
            seg <= p <= n,
            remove_all(s, pat) == out@ + s.subrange(
                index_of(s, seg as int),
                index_of(s, p as int),
            ) + remove_all(s.skip(index_of(s, p as int)), pat),
        decreases n - p,
    {
        let ghost k = index_of(s, p as int);
        let ghost g = index_of(s, seg as int);
        let ghost rest = s.skip(k);
        proof {
            lemma_offset_of_index(s, p as int);
            lemma_offset_of_index(s, seg as int);
            lemma_offset_order(s, seg as int, p as int);
            lemma_separator_byte(s, k, first);
            lemma_offset_step(s, k);
            lemma_index_of_offset(s, k + 1);
            if k + 1 < s.len() {
                lemma_separator_byte(s, k + 1, second);
                lemma_offset_step(s, k + 1);
                lemma_index_of_offset(s, k + 2);
            } else {
                lemma_offset_ends(s);
            }
            assert(rest.len() > 0);
            assert(rest[0] == s[k]);
        }
        if bytes[p] == first && p + 1 < n && bytes[p + 1] == second {
            proof {
                assert(k + 1 < s.len());
                assert(rest.subrange(0, 2) =~= pat);
                assert(rest.skip(2) =~= s.skip(k + 2));
                assert(s.subrange(k + 2, k + 2) =~= Seq::<char>::empty());
            }
            out.append(slice(text, seg, p));
            p = p + 2;
            seg = p;
            proof {
                assert(out@ + s.subrange(k + 2, k + 2) + remove_all(s.skip(k + 2), pat)
                    =~= out@ + remove_all(s.skip(k + 2), pat));
            }
        } else {
            proof {
                if occurs_at(rest, pat, 0) {
                    assert(rest.subrange(0, 2)[0] == pat[0]);
                    assert(rest.subrange(0, 2)[1] == pat[1]);
                    assert(rest[1] == s[k + 1]);
                }
                assert(rest.skip(1) =~= s.skip(k + 1));
                assert(s.subrange(g, k) + seq![s[k]] =~= s.subrange(g, k + 1));
                assert(out@ + s.subrange(g, k) + (seq![s[k]] + remove_all(s.skip(k + 1), pat))
                    =~= out@ + s.subrange(g, k + 1) + remove_all(s.skip(k + 1), pat));
            }
            let w = char_width_at(text, p);
            p = p + w;
        }
    }
    proof {
        lemma_offset_of_index(s, p as int);
        assert(s.skip(s.len() as int) =~= Seq::<char>::empty());
        assert(out@ + s.subrange(index_of(s, seg as int), s.len() as int) + Seq::<char>::empty()
            =~= out@ + s.subrange(index_of(s, seg as int), s.len() as int));
    }
    out.append(slice(text, seg, n));
    out
}

/// A selection set between the two markers.
pub open spec fn marked(selection: Seq<char>) -> Seq<char> {
    open_marker() + selection + close_marker()
}

/// Index of the first occurrence of `pat` in `s` at or behind index `i`.
pub open spec fn first_occurrence_from(s: Seq<char>, pat: Seq<char>, i: int) -> Option<int>
    decreases s.len() - i + 1,
{
    if i < 0 || i + pat.len() > s.len() {
        None
    } else if occurs_at(s, pat, i) {
        Some(i)
    } else {
        first_occurrence_from(s, pat, i + 1)
    }
}

/// Index of the first occurrence of `pat` in `s`.
pub open spec fn first_occurrence(s: Seq<char>, pat: Seq<char>) -> Option<int> {
    first_occurrence_from(s, pat, 0)
}

/// `s` with the markers taken away from around the first occurrence of the
/// marked selection; `s` itself where the marked selection does not occur.
pub open spec fn unmark_first_spec(s: Seq<char>, selection: Seq<char>) -> Seq<char> {
    match first_occurrence(s, marked(selection)) {
        Some(i) => s.take(i) + selection + s.skip(i + selection.len() + 4),
        None => s,
    }
}

/// The first occurrence is an occurrence, and no index before it is one.
pub proof fn lemma_first_occurrence(s: Seq<char>, pat: Seq<char>, i: int)
    requires
        0 <= i,
    ensures
        match first_occurrence_from(s, pat, i) {
            Some(j) => i <= j && occurs_at(s, pat, j) && forall|k: int|
                i <= k < j ==> !occurs_at(s, pat, k),
            None => forall|k: int| i <= k ==> !occurs_at(s, pat, k),
        },
    decreases s.len() - i + 1,
{
    if i + pat.len() <= s.len() && !occurs_at(s, pat, i) {
        lemma_first_occurrence(s, pat, i + 1);
    }
}

/// The bytes of the two markers.
pub proof fn lemma_marker_bytes()
    ensures
        encode_utf8(open_marker()) == seq![0x3cu8, 0x7cu8],
        encode_utf8(close_marker()) == seq![0x7cu8, 0x3eu8],
        open_marker() == seq![0x3cu8 as char, 0x7cu8 as char],
        close_marker() == seq![0x7cu8 as char, 0x3eu8 as char],
{
    reveal_with_fuel(encode_utf8, 3);
    let o = open_marker();
    let c = close_marker();
    assert(o.drop_first() =~= seq!['|']);
    assert(o.drop_first().drop_first() =~= Seq::<char>::empty());
    assert(c.drop_first() =~= seq!['>']);
    assert(c.drop_first().drop_first() =~= Seq::<char>::empty());
    assert(0x3cu32 & 0x7f == 0x3c) by (bit_vector);
    assert(0x7cu32 & 0x7f == 0x7c) by (bit_vector);
    assert(0x3eu32 & 0x7f == 0x3e) by (bit_vector);
    assert('<' as u32 == 0x3c);
    assert('|' as u32 == 0x7c);
    assert('>' as u32 == 0x3e);
    assert(encode_utf8(o) =~= seq![0x3cu8, 0x7cu8]);
    assert(encode_utf8(c) =~= seq![0x7cu8, 0x3eu8]);
    assert(o =~= seq![0x3cu8 as char, 0x7cu8 as char]);
    assert(c =~= seq![0x7cu8 as char, 0x3eu8 as char]);
}

/// The marker-free text of `content`.
pub fn strip_markers(content: &str) -> (out: String)
    ensures
        out@ == strip_markers_spec(content@),
{
    proof {
        lemma_marker_bytes();
    }
    let without_open = remove_pair(content, 0x3c, 0x7c);
    remove_pair(without_open.as_str(), 0x7c, 0x3e)
}

/// `text` with the span between the byte offsets `a` and `b` set between the
/// two markers.
pub fn render(text: &str, a: usize, b: usize) -> (out: String)
    requires
        valid_offset(text@, a as int),
        valid_offset(text@, b as int),
        a <= b,
    ensures
        out@ == render_spec(text@, index_of(text@, a as int), index_of(text@, b as int)),
{
    let n = text.as_bytes().len();
    proof {
        let s = text@;
        lemma_offset_ends(s);
        lemma_offset_of_index(s, a as int);
        lemma_offset_of_index(s, b as int);
        lemma_index_of_offset(s, 0);
        lemma_index_of_offset(s, s.len() as int);
        reveal_strlit("<|");
        reveal_strlit("|>");
        assert("<|"@ =~= open_marker());
        assert("|>"@ =~= close_marker());
        assert(s.subrange(0, index_of(s, a as int)) =~= s.take(index_of(s, a as int)));
        assert(s.subrange(index_of(s, b as int), s.len() as int) =~= s.skip(
            index_of(s, b as int),
        ));
    }
    let mut out = String::new();
    out.append(slice(text, 0, a));
    out.append("<|");
    out.append(slice(text, a, b));
    out.append("|>");
    out.append(slice(text, b, n));
    proof {
        let s = text@;
        let i = index_of(s, a as int);
        let j = index_of(s, b as int);
        assert(out@ =~= s.take(i) + open_marker() + s.subrange(i, j) + close_marker() + s.skip(j));
    }
    out
}

/// The rendered text is four bytes longer than the text it shows.
pub proof fn lemma_render_len(s: Seq<char>, a: int, b: int)
    requires
        0 <= a <= b <= s.len(),
    ensures
        byte_len(render_spec(s, a, b)) == byte_len(s) + 4,
        render_spec(s, a, b).len() == s.len() + 4,
{
    lemma_marker_bytes();
    let head = s.take(a);
    let mid = s.subrange(a, b);
    let tail = s.skip(b);
    lemma_encode_concat(head, open_marker());
    lemma_encode_concat(head + open_marker(), mid);
    lemma_encode_concat(head + open_marker() + mid, close_marker());
    lemma_encode_concat(head + open_marker() + mid + close_marker(), tail);
    lemma_encode_concat(head, mid);
    lemma_encode_concat(head + mid, tail);
    assert(head + mid + tail =~= s);
}

/// True when the bytes `text` hold, from position `p` on, the two bytes of the
/// opening marker, the bytes `inner`, and the two bytes of the closing marker.
pub open spec fn marked_bytes_at(text: Seq<u8>, p: int, inner: Seq<u8>) -> bool {
    &&& 0 <= p
    &&& p + inner.len() + 4 <= text.len()
    &&& text[p] == 0x3c
    &&& text[p + 1] == 0x7c
    &&& text.subrange(p + 2, p + 2 + inner.len()) == inner
    &&& text[p + 2 + inner.len()] == 0x7c
    &&& text[p + 3 + inner.len()] == 0x3e
}

/// A marked selection stands at a character of the text exactly where its
/// bytes stand at the offset of that character.
pub proof fn lemma_marked_at(s: Seq<char>, selection: Seq<char>, k: int)
    requires
        0 <= k < s.len(),
    ensures
        occurs_at(s, marked(selection), k) <==> marked_bytes_at(
            encode_utf8(s),
            offset_of(s, k),
            encode_utf8(selection),
        ),
        occurs_at(s, marked(selection), k) ==> offset_of(s, k + selection.len() + 4) == offset_of(
            s,
            k,
        ) + byte_len(selection) + 4,
{
    let bytes = encode_utf8(s);
    let inner = encode_utf8(selection);
    let p = offset_of(s, k);
    let m = inner.len() as int;
    let len = selection.len() as int;
    let pat = marked(selection);
    lemma_marker_bytes();
    lemma_offset_ends(s);
    lemma_separator_byte(s, k, 0x3c);
    lemma_offset_step(s, k);
    if occurs_at(s, pat, k) {
        let part = s.subrange(k, k + pat.len());
        assert(part[0] == '<' && part[1] == '|');
        assert(part[len + 2] == '|' && part[len + 3] == '>');
        assert(part.subrange(2, len + 2) =~= selection);
        assert(s.subrange(k + 2, k + 2 + len) =~= part.subrange(2, len + 2));
        lemma_separator_byte(s, k + 1, 0x7c);
        lemma_offset_step(s, k + 1);
        lemma_encode_subrange(s, k + 2, k + 2 + len);
        lemma_separator_byte(s, k + 2 + len, 0x7c);
        lemma_offset_step(s, k + 2 + len);
        lemma_separator_byte(s, k + 3 + len, 0x3e);
        lemma_offset_step(s, k + 3 + len);
        lemma_encode_subrange(s, k + 4 + len, s.len() as int);
    }
    if marked_bytes_at(bytes, p, inner) {
        lemma_index_of_offset(s, k);
        lemma_index_of_offset(s, k + 1);
        assert(k + 1 < s.len()) by {
            lemma_offset_of_index(s, p + 1);
        }
        lemma_separator_byte(s, k + 1, 0x7c);
        lemma_offset_step(s, k + 1);
        lemma_index_of_offset(s, k + 2);
        let q = p + 2 + m;
        lemma_leading_byte_offset(s, q);
        let j = index_of(s, q);
        lemma_offset_of_index(s, q);
        lemma_offset_order(s, p + 2, q);
        lemma_separator_byte(s, j, 0x7c);
        lemma_offset_step(s, j);
        lemma_index_of_offset(s, j + 1);
        assert(j + 1 < s.len()) by {
            lemma_offset_of_index(s, q + 1);
        }
        lemma_separator_byte(s, j + 1, 0x3e);
        lemma_offset_step(s, j + 1);
        lemma_encode_subrange(s, k + 2, j);
        encode_utf8_decode_utf8(s.subrange(k + 2, j));
        encode_utf8_decode_utf8(selection);
        assert(s.subrange(k + 2, j) == selection);
        assert(j == k + 2 + len);
        assert(s.subrange(k, k + pat.len()) =~= pat);
    }
}

/// True when `text` holds the bytes `inner` from position `p` on.
fn holds_at(text: &[u8], p: usize, inner: &[u8]) -> (found: bool)
    requires
        p + inner@.len() <= text@.len(),
    ensures
        found == (text@.subrange(p as int, p + inner@.len()) == inner@),
{
    let n = text.len();
    let m = inner.len();
    let mut i: usize = 0;
    while i < m
        invariant
            m == inner@.len(),
            n == text@.len(),
            p + m <= n,
            i <= m,
            forall|q: int| 0 <= q < i ==> text@[p + q] == inner@[q],
        decreases m - i,
    {
        if text[p + i] != inner[i] {
            proof {
                assert(text@.subrange(p as int, p + m)[i as int] == text@[p + i]);
            }
            return false;
        }
        i = i + 1;
    }
    proof {
        assert(text@.subrange(p as int, p + m) =~= inner@);
    }
    true
}

/// True when `text` holds a marked span with the bytes `inner` from position
/// `p` on.
fn marked_at(text: &[u8], p: usize, inner: &[u8]) -> (found: bool)
    requires
        p <= text@.len(),
    ensures
        found == marked_bytes_at(text@, p as int, inner@),
{
    let n = text.len();
    let m = inner.len();
    if m > n - p || n - p - m < 4 {
        return false;
    }
    text[p] == 0x3c && text[p + 1] == 0x7c && text[p + 2 + m] == 0x7c && text[p + 3 + m] == 0x3e
        && holds_at(text, p + 2, inner)
}

/// `content` with the markers taken away from around the first occurrence of
/// the marked `selection`.
pub fn unmark_first(content: &str, selection: &str) -> (out: String)
    ensures
        out@ == unmark_first_spec(content@, selection@),
{
    let bytes = content.as_bytes();
    let inner = selection.as_bytes();
    let n = bytes.len();
    let m = inner.len();
    let ghost s = content@;
    let ghost pat = marked(selection@);
    let mut p: usize = 0;
    proof {
        lemma_offset_ends(s);
        lemma_index_of_offset(s, 0);
    }
    while p < n
        invariant
            s == content@,
            pat == marked(selection@),
            bytes@ == encode_utf8(s),
            inner@ == encode_utf8(selection@),
            n == bytes@.len(),
            m == inner@.len(),
            valid_offset(s, p as int),
            p <= n,
            first_occurrence(s, pat) == first_occurrence_from(s, pat, index_of(s, p as int)),
        decreases n - p,
    {
        let ghost k = index_of(s, p as int);
        proof {
            lemma_offset_of_index(s, p as int);
            lemma_marked_at(s, selection@, k);
            lemma_offset_step(s, k);
            lemma_index_of_offset(s, k + 1);
        }
        if marked_at(bytes, p, inner) {
            proof {
                let len = selection@.len() as int;
                lemma_offset_ends(s);
                lemma_index_of_offset(s, 0);
                lemma_index_of_offset(s, k + len + 4);
                lemma_index_of_offset(s, s.len() as int);
                assert(s.subrange(0, k) =~= s.take(k));
                assert(s.subrange(k + len + 4, s.len() as int) =~= s.skip(k + len + 4));
            }
            let mut out = String::new();
            out.append(slice(content, 0, p));
            out.append(selection);
            out.append(slice(content, p + m + 4, n));
            return out;
        }
        let w = char_width_at(content, p);
        p = p + w;
    }
    proof {
        lemma_offset_of_index(s, p as int);
        assert(pat.len() == selection@.len() + 4);
    }
    content.to_owned()
}

} // verus!
