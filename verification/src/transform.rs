//! Case transformations of the buffer text: upper case, lower case, and
//! capitalised words.

use vstd::prelude::*;
use vstd::string::*;
use crate::offsets::{
    byte_len, char_width_at, index_of, lemma_index_of_offset, lemma_offset_ends,
    lemma_offset_of_index, lemma_offset_order, slice, valid_offset,
};

verus! {

/// Whether `char::is_whitespace` holds of `c`: whether `c` has the Unicode
/// property White_Space.
pub uninterp spec fn is_whitespace(c: char) -> bool;

/// What `char::to_uppercase` yields for `c`: the upper-case mapping of `c`,
/// one or more characters.
pub uninterp spec fn char_uppercase(c: char) -> Seq<char>;

/// What `str::to_uppercase` returns for the text `s`.
pub uninterp spec fn uppercase(s: Seq<char>) -> Seq<char>;

/// What `str::to_lowercase` returns for the text `s`.
pub uninterp spec fn lowercase(s: Seq<char>) -> Seq<char>;

/// Calls `char::is_whitespace`. The result is taken on trust to be the value
/// that [`is_whitespace`] names.
#[verifier::external_body]
fn char_is_whitespace(c: char) -> (b: bool)
    ensures
        b == is_whitespace(c),
{
    c.is_whitespace()
}

/// Calls `char::to_uppercase` and collects the characters it yields. The
/// result is taken on trust to be the sequence that [`char_uppercase`] names.
#[verifier::external_body]
fn char_to_uppercase(c: char) -> (upper: String)
    ensures
        upper@ == char_uppercase(c),
{
    c.to_uppercase().collect()
}

/// Calls `str::to_uppercase`. The result is taken on trust to be the text that
/// [`uppercase`] names.
#[verifier::external_body]
fn str_to_uppercase(s: &str) -> (upper: String)
    ensures
        upper@ == uppercase(s@),
{
    s.to_uppercase()
}

/// Calls `str::to_lowercase`. The result is taken on trust to be the text that
/// [`lowercase`] names.
#[verifier::external_body]
fn str_to_lowercase(s: &str) -> (lower: String)
    ensures
        lower@ == lowercase(s@),
{
    s.to_lowercase()
}

/// The character of `text` that begins at byte offset `p`.
fn char_at(text: &str, p: usize) -> (c: char)
    requires
        valid_offset(text@, p as int),
        p < byte_len(text@),
    ensures
        c == text@[index_of(text@, p as int)],
{
    broadcast use vstd::string::group_string_axioms;

    let n = text.as_bytes().len();
    proof {
        lemma_offset_ends(text@);
        lemma_offset_of_index(text@, p as int);
        lemma_index_of_offset(text@, text@.len() as int);
    }
    let tail = slice(text, p, n);
    let mut chars = tail.chars();
    match chars.next() {
        Some(c) => c,
        None => ' ',
    }
}

/// Number of whitespace characters at the start of `s`.
pub open spec fn leading_whitespace(s: Seq<char>) -> int
    decreases s.len(),
{
    if s.len() > 0 && is_whitespace(s[0]) {
        1 + leading_whitespace(s.skip(1))
    } else {
        0
    }
}

/// Number of characters at the start of `s` that are no whitespace.
pub open spec fn leading_word(s: Seq<char>) -> int
    decreases s.len(),
{
    if s.len() > 0 && !is_whitespace(s[0]) {
        1 + leading_word(s.skip(1))
    } else {
        0
    }
}

/// The leading whitespace ends in front of the first character that is no
/// whitespace.
pub proof fn lemma_leading_whitespace(s: Seq<char>)
    ensures
        0 <= leading_whitespace(s) <= s.len(),
        forall|k: int| 0 <= k < leading_whitespace(s) ==> is_whitespace(s[k]),
        leading_whitespace(s) < s.len() ==> !is_whitespace(s[leading_whitespace(s)]),
    decreases s.len(),
{
    if s.len() > 0 && is_whitespace(s[0]) {
        lemma_leading_whitespace(s.skip(1));
        assert forall|k: int| 0 <= k < leading_whitespace(s) implies is_whitespace(s[k]) by {
            if k > 0 {
                assert(s[k] == s.skip(1)[k - 1]);
            }
        }
    }
}

/// The leading word ends in front of the first whitespace character.
pub proof fn lemma_leading_word(s: Seq<char>)
    ensures
        0 <= leading_word(s) <= s.len(),
        forall|k: int| 0 <= k < leading_word(s) ==> !is_whitespace(s[k]),
        leading_word(s) < s.len() ==> is_whitespace(s[leading_word(s)]),
    decreases s.len(),
{
    if s.len() > 0 && !is_whitespace(s[0]) {
        lemma_leading_word(s.skip(1));
        assert forall|k: int| 0 <= k < leading_word(s) implies !is_whitespace(s[k]) by {
            if k > 0 {
                assert(s[k] == s.skip(1)[k - 1]);
            }
        }
    }
}

/// A run of characters that are no whitespace, ended by whitespace or by the
/// end of the text, is the leading word.
pub proof fn lemma_leading_word_is(s: Seq<char>, n: int)
    requires
        0 <= n <= s.len(),
        forall|k: int| 0 <= k < n ==> !is_whitespace(s[k]),
        n < s.len() ==> is_whitespace(s[n]),
    ensures
        leading_word(s) == n,
    decreases n,
{
    if n > 0 {
        assert forall|k: int| 0 <= k < n - 1 implies !is_whitespace(s.skip(1)[k]) by {
            assert(s.skip(1)[k] == s[k + 1]);
        }
        lemma_leading_word_is(s.skip(1), n - 1);
    }
}

/// The words of `s`: its longest runs of characters that are no whitespace,
/// from left to right.
pub open spec fn words(s: Seq<char>) -> Seq<Seq<char>>
    decreases s.len(),
    via words_terminates
{
    let t = s.skip(leading_whitespace(s));
    if t.len() == 0 {
        Seq::<Seq<char>>::empty()
    } else {
        seq![t.take(leading_word(t))] + words(t.skip(leading_word(t)))
    }
}

#[via_fn]
proof fn words_terminates(s: Seq<char>) {
    lemma_leading_whitespace(s);
    let t = s.skip(leading_whitespace(s));
    if t.len() != 0 {
        lemma_leading_word(t);
    }
}

/// A word with its first character replaced by the upper-case mapping of
/// that character.
pub open spec fn capitalize_word(word: Seq<char>) -> Seq<char> {
    if word.len() == 0 {
        word
    } else {
        char_uppercase(word[0]) + word.skip(1)
    }
}

/// The words one after the other, with one space between neighbours.
pub open spec fn join_words(list: Seq<Seq<char>>) -> Seq<char>
    decreases list.len(),
{
    if list.len() == 0 {
        Seq::<char>::empty()
    } else if list.len() == 1 {
        list[0]
    } else {
        join_words(list.drop_last()) + seq![' '] + list.last()
    }
}

/// The words of `s`, each capitalised, joined by single spaces.
pub open spec fn capitalize_spec(s: Seq<char>) -> Seq<char> {
    join_words(words(s).map_values(|word: Seq<char>| capitalize_word(word)))
}

/// Whitespace at the start of a text adds no word.
pub proof fn lemma_words_after_whitespace(s: Seq<char>)
    requires
        s.len() > 0,
        is_whitespace(s[0]),
    ensures
        words(s) == words(s.skip(1)),
{
    lemma_leading_whitespace(s.skip(1));
    assert(s.skip(leading_whitespace(s)) =~= s.skip(1).skip(leading_whitespace(s.skip(1))));
}

/// A text that begins with a word has that word first, followed by the words
/// of the rest.
pub proof fn lemma_words_after_word(s: Seq<char>)
    requires
        s.len() > 0,
        !is_whitespace(s[0]),
    ensures
        words(s) == seq![s.take(leading_word(s))] + words(s.skip(leading_word(s))),
{
    assert(s.skip(0) =~= s);
}

/// Appends a word to `out`: a space unless the word is the first, then
/// `upper`, the upper-case form of the word's first character, then `rest`,
/// the word behind its first character.
pub fn push_capitalized(out: &mut String, first: bool, upper: &str, rest: &str)
    ensures
        final(out)@ == old(out)@ + (if first {
            Seq::<char>::empty()
        } else {
            seq![' ']
        }) + upper@ + rest@,
{
    if !first {
        proof {
            reveal_strlit(" ");
            assert(" "@ =~= seq![' ']);
        }
        out.append(" ");
    }
    out.append(upper);
    out.append(rest);
    proof {
        if first {
            assert(old(out)@ + Seq::<char>::empty() =~= old(out)@);
        }
    }
}

/// Capitalises each word of `text` and joins the words by single spaces.
pub fn capitalize(text: &str) -> (out: String)
    ensures
        out@ == capitalize_spec(text@),
{
    let n = text.as_bytes().len();
    let ghost s = text@;
    let ghost cap = |word: Seq<char>| capitalize_word(word);
    let ghost mut done: Seq<Seq<char>> = Seq::empty();
    let mut out = String::new();
    let mut first = true;
    let mut p: usize = 0;
    proof {
        lemma_offset_ends(s);
        lemma_index_of_offset(s, 0);
        assert(s.skip(0) =~= s);
        assert(done + words(s) =~= words(s));
        assert(done.map_values(cap) =~= Seq::<Seq<char>>::empty());
    }
    while p < n
        invariant
            s == text@,
            n == byte_len(s),
            cap == |word: Seq<char>| capitalize_word(word),
            valid_offset(s, p as int),
            p <= n,
            first == (done.len() == 0),
            words(s) == done + words(s.skip(index_of(s, p as int))),
            out@ == join_words(done.map_values(cap)),
        decreases n - p,
    {
        let ghost k = index_of(s, p as int);
        let ghost t = s.skip(k);
        proof {
            lemma_offset_of_index(s, p as int);
            lemma_index_of_offset(s, k + 1);
            assert(t[0] == s[k]);
        }
        let c = char_at(text, p);
        let w = char_width_at(text, p);
        if char_is_whitespace(c) {
            proof {
                lemma_words_after_whitespace(t);
                assert(t.skip(1) =~= s.skip(k + 1));
            }
            p = p + w;
        } else {
            let mut q: usize = p + w;
            proof {
                lemma_offset_of_index(s, q as int);
            }
            loop
                invariant
                    s == text@,
                    n == byte_len(s),
                    valid_offset(s, p as int),
                    valid_offset(s, p + w),
                    valid_offset(s, q as int),
                    p + w <= q <= n,
                    k == index_of(s, p as int),
                    0 <= k < index_of(s, q as int) <= s.len(),
                    forall|j: int| k <= j < index_of(s, q as int) ==> !is_whitespace(s[j]),
                ensures
                    q == n || is_whitespace(s[index_of(s, q as int)]),
                decreases n - q,
            {
                if q >= n {
                    break ;
                }
                proof {
                    lemma_offset_of_index(s, q as int);
                    lemma_index_of_offset(s, index_of(s, q as int) + 1);
                }
                if char_is_whitespace(char_at(text, q)) {
                    break ;
                }
                let step = char_width_at(text, q);
                q = q + step;
                proof {
                    lemma_offset_of_index(s, q as int);
                }
            }
            let ghost e = index_of(s, q as int);
            proof {
                lemma_offset_of_index(s, q as int);
                lemma_offset_order(s, p as int, q as int);
                assert forall|j: int| 0 <= j < e - k implies !is_whitespace(t[j]) by {
                    assert(t[j] == s[k + j]);
                }
                if e < s.len() {
                    assert(t[e - k] == s[e]);
                }
                lemma_leading_word_is(t, e - k);
                lemma_words_after_word(t);
                assert(t.skip(e - k) =~= s.skip(e));
                assert(t.take(e - k) =~= s.subrange(k, e));
            }
            let ghost word = s.subrange(k, e);
            let upper = char_to_uppercase(c);
            push_capitalized(&mut out, first, upper.as_str(), slice(text, p + w, q));
            proof {
                assert(word.skip(1) =~= s.subrange(k + 1, e));
                assert(word[0] == s[k]);
                let list = done.push(word).map_values(cap);
                assert(list =~= done.map_values(cap).push(capitalize_word(word)));
                assert(list.drop_last() =~= done.map_values(cap));
                assert(list.last() == capitalize_word(word));
                assert(done + (seq![word] + words(s.skip(e))) =~= done.push(word) + words(
                    s.skip(e),
                ));
                assert(out@ =~= join_words(list));
            }
            proof {
                done = done.push(word);
            }
            first = false;
            p = q;
        }
    }
    proof {
        lemma_offset_of_index(s, p as int);
        assert(s.skip(s.len() as int) =~= Seq::<char>::empty());
        assert(leading_whitespace(Seq::<char>::empty()) == 0);
        assert(Seq::<char>::empty().skip(0) =~= Seq::<char>::empty());
        assert(words(Seq::<char>::empty()) =~= Seq::<Seq<char>>::empty());
        assert(done + Seq::<Seq<char>>::empty() =~= done);
    }
    out
}

/// The transformations on offer.
#[derive(Clone, Copy, Debug)]
pub enum Choice {
    /// Every character in upper case.
    Upper,
    /// Every character in lower case.
    Lower,
    /// Every word with an upper-case first character.
    Cap,
}

/// The text that a transformation makes of `s`.
pub open spec fn transform_spec(s: Seq<char>, mode: Choice) -> Seq<char> {
    match mode {
        Choice::Upper => uppercase(s),
        Choice::Lower => lowercase(s),
        Choice::Cap => capitalize_spec(s),
    }
}

/// Transforms `content` as `mode` says.
pub fn transform(content: &str, mode: Choice) -> (out: String)
    ensures
        out@ == transform_spec(content@, mode),
{
    match mode {
        Choice::Upper => str_to_uppercase(content),
        Choice::Lower => str_to_lowercase(content),
        Choice::Cap => capitalize(content),
    }
}

} // verus!
