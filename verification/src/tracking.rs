//! How the two forms of a selection stay in step: the offsets that the
//! selection records, and the markers that the buffer shows.
//!
//! Markers are found again by searching the buffer text. The statements here
//! therefore hold where the search finds what was written: where stripping
//! the markers from a rendered text gives that text back, see
//! [`strips_clean`]. A text without `<` and `>` always does.

use vstd::prelude::*;
use vstd::utf8::*;
use crate::markers::{
    close_marker, first_occurrence, lemma_first_occurrence, marked, occurs_at, open_marker,
    remove_all, render_spec, strip_markers_spec,
};
use crate::offsets::{
    byte_len, index_of, lemma_encode_single, lemma_encode_subrange, lemma_index_of_offset,
    lemma_offset_increasing, lemma_offset_of_index, lemma_offset_order, lemma_offset_step,
    offset_of, valid_offset,
};
use crate::segments::{
    lemma_segment_end, lemma_segment_end_is, lemma_segment_start, lemma_segment_start_is,
};
use crate::selection::{
    expand_ready, expand_spec, reduce_ready, reduce_spec, selected, toggle_spec, well_formed,
    word_end, word_start, SelectionState,
};
use crate::text_model::TextState;

verus! {

/// True when stripping the markers from `text`, rendered with the span from
/// index `a` to index `b` marked, gives `text` back.
pub open spec fn strips_clean(text: Seq<char>, a: int, b: int) -> bool {
    strip_markers_spec(render_spec(text, a, b)) == text
}

/// True when `text` holds neither `<` nor `>`.
pub open spec fn marker_free(text: Seq<char>) -> bool {
    forall|k: int| 0 <= k < text.len() ==> text[k] != '<' && text[k] != '>'
}

/// A text without the first character of a pattern holds no occurrence of it.
pub proof fn lemma_remove_all_without_first(s: Seq<char>, pat: Seq<char>)
    requires
        pat.len() > 0,
        forall|k: int| 0 <= k < s.len() ==> s[k] != pat[0],
    ensures
        remove_all(s, pat) == s,
    decreases s.len(),
{
    if s.len() > 0 {
        if occurs_at(s, pat, 0) {
            assert(s.subrange(0, pat.len() as int)[0] == pat[0]);
        }
        assert forall|k: int| 0 <= k < s.skip(1).len() implies s.skip(1)[k] != pat[0] by {
            assert(s.skip(1)[k] == s[k + 1]);
        }
        lemma_remove_all_without_first(s.skip(1), pat);
        assert(seq![s[0]] + s.skip(1) =~= s);
    }
}

/// A text without the second character of a two-character pattern holds no
/// occurrence of it.
pub proof fn lemma_remove_all_without_second(s: Seq<char>, pat: Seq<char>)
    requires
        pat.len() == 2,
        forall|k: int| 0 <= k < s.len() ==> s[k] != pat[1],
    ensures
        remove_all(s, pat) == s,
    decreases s.len(),
{
    if s.len() > 0 {
        if occurs_at(s, pat, 0) {
            assert(s.subrange(0, 2)[1] == pat[1]);
        }
        assert forall|k: int| 0 <= k < s.skip(1).len() implies s.skip(1)[k] != pat[1] by {
            assert(s.skip(1)[k] == s[k + 1]);
        }
        lemma_remove_all_without_second(s.skip(1), pat);
        assert(seq![s[0]] + s.skip(1) =~= s);
    }
}

/// In front of its first occurrence, a text without the first character of
/// the pattern is kept, and the occurrence is taken out.
pub proof fn lemma_remove_all_first_absent(head: Seq<char>, pat: Seq<char>, tail: Seq<char>)
    requires
        pat.len() > 0,
        forall|k: int| 0 <= k < head.len() ==> head[k] != pat[0],
    ensures
        remove_all(head + pat + tail, pat) == head + remove_all(tail, pat),
    decreases head.len(),
{
    let s = head + pat + tail;
    if head.len() == 0 {
        assert(s =~= pat + tail);
        assert(s.subrange(0, pat.len() as int) =~= pat);
        assert(s.skip(pat.len() as int) =~= tail);
        assert(head + remove_all(tail, pat) =~= remove_all(tail, pat));
    } else {
        if occurs_at(s, pat, 0) {
            assert(s.subrange(0, pat.len() as int)[0] == pat[0]);
        }
        let rest = head.skip(1);
        assert(s.skip(1) =~= rest + pat + tail);
        assert forall|k: int| 0 <= k < rest.len() implies rest[k] != pat[0] by {
            assert(rest[k] == head[k + 1]);
        }
        lemma_remove_all_first_absent(rest, pat, tail);
        assert(seq![s[0]] + (rest + remove_all(tail, pat)) =~= head + remove_all(tail, pat));
    }
}

/// In front of its first occurrence, a text without the second character of
/// a two-character pattern is kept, and the occurrence is taken out.
pub proof fn lemma_remove_all_second_absent(head: Seq<char>, pat: Seq<char>, tail: Seq<char>)
    requires
        pat.len() == 2,
        pat[0] != pat[1],
        forall|k: int| 0 <= k < head.len() ==> head[k] != pat[1],
    ensures
        remove_all(head + pat + tail, pat) == head + remove_all(tail, pat),
    decreases head.len(),
{
    let s = head + pat + tail;
    if head.len() == 0 {
        assert(s =~= pat + tail);
        assert(s.subrange(0, 2) =~= pat);
        assert(s.skip(2) =~= tail);
        assert(head + remove_all(tail, pat) =~= remove_all(tail, pat));
    } else {
        if occurs_at(s, pat, 0) {
            assert(s.subrange(0, 2)[1] == pat[1]);
            if head.len() == 1 {
                assert(s[1] == pat[0]);
            } else {
                assert(s[1] == head[1]);
            }
        }
        let rest = head.skip(1);
        assert(s.skip(1) =~= rest + pat + tail);
        assert forall|k: int| 0 <= k < rest.len() implies rest[k] != pat[1] by {
            assert(rest[k] == head[k + 1]);
        }
        lemma_remove_all_second_absent(rest, pat, tail);
        assert(seq![s[0]] + (rest + remove_all(tail, pat)) =~= head + remove_all(tail, pat));
    }
}

/// A text without `<` and `>` comes back from rendering and stripping,
/// whatever span is marked.
pub proof fn lemma_marker_free_strips_clean(text: Seq<char>, a: int, b: int)
    requires
        marker_free(text),
        0 <= a <= b <= text.len(),
    ensures
        strips_clean(text, a, b),
{
    let head = text.take(a);
    let mid = text.subrange(a, b);
    let tail = text.skip(b);
    let shown = render_spec(text, a, b);
    let after_open = mid + close_marker() + tail;
    assert(shown =~= head + open_marker() + after_open);
    lemma_remove_all_first_absent(head, open_marker(), after_open);
    assert forall|k: int| 0 <= k < after_open.len() implies after_open[k] != open_marker()[0] by {
        if k < mid.len() {
            assert(after_open[k] == text[a + k]);
        } else if k >= mid.len() + 2 {
            assert(after_open[k] == text[b + (k - mid.len() - 2)]);
        }
    }
    lemma_remove_all_without_first(after_open, open_marker());
    let opened = head + after_open;
    assert(remove_all(shown, open_marker()) == opened);
    let front = head + mid;
    assert(opened =~= front + close_marker() + tail);
    assert forall|k: int| 0 <= k < front.len() implies front[k] != close_marker()[1] by {
        assert(front[k] == text[k]);
    }
    lemma_remove_all_second_absent(front, close_marker(), tail);
    assert forall|k: int| 0 <= k < tail.len() implies tail[k] != close_marker()[1] by {
        assert(tail[k] == text[b + k]);
    }
    lemma_remove_all_without_second(tail, close_marker());
    assert(front + tail =~= text);
}

/// Two toggles in a row restore the buffer: its text and its cursor are
/// what they were before the first toggle.
///
/// The second toggle searches the buffer for the marked character, so this is
/// stated for buffers in which the marked character is first found where the
/// first toggle wrote it.
pub proof fn lemma_toggle_twice(e: SelectionState, m: TextState)
    requires
        !selected(e),
        valid_offset(m.content, m.cursor),
        m.cursor < byte_len(m.content),
        forall|j: int|
            0 <= j < index_of(m.content, m.cursor) ==> !occurs_at(
                toggle_spec(e, m).1.content,
                marked(toggle_spec(e, m).0.selection),
                j,
            ),
    ensures
        selected(toggle_spec(e, m).0),
        !selected(toggle_spec(toggle_spec(e, m).0, toggle_spec(e, m).1).0),
        toggle_spec(toggle_spec(e, m).0, toggle_spec(e, m).1).1 == m,
{
    let s = m.content;
    let i = index_of(s, m.cursor);
    lemma_offset_of_index(s, m.cursor);
    let on = toggle_spec(e, m);
    let shown = on.1.content;
    let pat = marked(on.0.selection);
    assert(0 <= i < s.len());
    assert(shown == render_spec(s, i, i + 1));
    assert(pat == marked(s.subrange(i, i + 1)));
    assert(shown.subrange(i, i + 5) =~= pat);
    assert(occurs_at(shown, pat, i));
    lemma_first_occurrence(shown, pat, 0);
    assert(first_occurrence(shown, pat) == Some(i));
    assert(toggle_spec(on.0, on.1).1.content =~= s);
}

/// Without `<` in front of the cursor, the marked character is first found
/// where a toggle writes it.
pub proof fn lemma_toggle_found_first(e: SelectionState, m: TextState)
    requires
        !selected(e),
        valid_offset(m.content, m.cursor),
        m.cursor < byte_len(m.content),
        forall|j: int| 0 <= j < index_of(m.content, m.cursor) ==> m.content[j] != '<',
    ensures
        forall|j: int|
            0 <= j < index_of(m.content, m.cursor) ==> !occurs_at(
                toggle_spec(e, m).1.content,
                marked(toggle_spec(e, m).0.selection),
                j,
            ),
{
    let s = m.content;
    let i = index_of(s, m.cursor);
    lemma_offset_of_index(s, m.cursor);
    let shown = toggle_spec(e, m).1.content;
    let pat = marked(toggle_spec(e, m).0.selection);
    assert forall|j: int| 0 <= j < i implies !occurs_at(shown, pat, j) by {
        if occurs_at(shown, pat, j) {
            assert(shown.subrange(j, j + pat.len())[0] == pat[0]);
            assert(shown[j] == s[j]);
        }
    }
}

/// True when the text that an expansion of this selection writes to the
/// buffer strips clean.
pub open spec fn expansion_strips_clean(e: SelectionState, m: TextState) -> bool {
    let text = strip_markers_spec(m.content);
    strips_clean(
        text,
        word_start(text, index_of(text, e.start)),
        word_end(text, index_of(text, e.end)),
    )
}

/// What an expansion keeps. With a span selected whose rendering strips
/// clean, an expansion leaves the marker-free text and the original span as
/// they are; the selection stays selected and well formed, holds the text
/// between its boundaries, and begins and ends at a space or at an end of
/// the text.
pub proof fn lemma_expand_keeps(e: SelectionState, m: TextState)
    requires
        selected(e),
        well_formed(e),
        expand_ready(e, m),
        expansion_strips_clean(e, m),
    ensures
        ({
            let text = strip_markers_spec(m.content);
            let a = word_start(text, index_of(text, e.start));
            let b = word_end(text, index_of(text, e.end));
            let next = expand_spec(e, m);
            &&& 0 <= a <= index_of(text, e.start) < index_of(text, e.end) <= b <= text.len()
            &&& a == 0 || text[a - 1] == ' '
            &&& b == text.len() || text[b] == ' '
            &&& strip_markers_spec(next.1.content) == text
            &&& next.0.selection == text.subrange(a, b)
            &&& next.0.start == offset_of(text, a)
            &&& next.0.end == offset_of(text, b)
            &&& next.0.original_start == e.original_start
            &&& next.0.original_end == e.original_end
            &&& selected(next.0)
            &&& well_formed(next.0)
            &&& expand_ready(next.0, next.1)
        }),
{
    let text = strip_markers_spec(m.content);
    let i = index_of(text, e.start);
    let j = index_of(text, e.end);
    lemma_offset_of_index(text, e.start);
    lemma_offset_of_index(text, e.end);
    assert(e.start < e.end) by {
        if e.selection.len() > 0 {
            reveal_with_fuel(encode_utf8, 1);
            lemma_encode_single(e.selection[0]);
        }
    }
    lemma_offset_order(text, e.start, e.end);
    lemma_segment_start(text, i, ' ');
    lemma_segment_end(text, j, ' ');
    let a = word_start(text, i);
    let b = word_end(text, j);
    lemma_index_of_offset(text, a);
    lemma_index_of_offset(text, b);
    lemma_encode_subrange(text, a, b);
    lemma_offset_increasing(text, a, b);
}

/// An expansion changes nothing where the selection already reaches from a
/// space, or the start of the text, to a space, or the end of the text, and
/// the buffer shows the marker-free text with the markers around it.
pub proof fn lemma_expand_at_bounds(e: SelectionState, m: TextState)
    requires
        selected(e),
        expand_ready(e, m),
        ({
            let text = strip_markers_spec(m.content);
            let a = index_of(text, e.start);
            let b = index_of(text, e.end);
            &&& a == 0 || text[a - 1] == ' '
            &&& b == text.len() || text[b] == ' '
            &&& e.selection == text.subrange(a, b)
            &&& m.content == render_spec(text, a, b)
        }),
    ensures
        expand_spec(e, m) == (e, m),
{
    let text = strip_markers_spec(m.content);
    let a = index_of(text, e.start);
    let b = index_of(text, e.end);
    lemma_offset_of_index(text, e.start);
    lemma_offset_of_index(text, e.end);
    lemma_offset_order(text, e.start, e.end);
    lemma_segment_start_is(text, a, ' ', a);
    lemma_segment_end_is(text, b, ' ', b);
    if e.start == e.end {
        assert(e.selection =~= Seq::<char>::empty());
    }
    let next = expand_spec(e, m);
    assert(next.0.selection =~= e.selection);
    assert(next.1.content =~= m.content);
}

/// An expansion of an expanded selection changes nothing.
///
/// Stated for a selection whose expanded rendering strips clean: the
/// second expansion then reads the text that the first one wrote.
pub proof fn lemma_expand_idempotent(e: SelectionState, m: TextState)
    requires
        selected(e),
        well_formed(e),
        expand_ready(e, m),
        expansion_strips_clean(e, m),
    ensures
        expand_spec(expand_spec(e, m).0, expand_spec(e, m).1) == expand_spec(e, m),
{
    let text = strip_markers_spec(m.content);
    let a = word_start(text, index_of(text, e.start));
    let b = word_end(text, index_of(text, e.end));
    lemma_expand_keeps(e, m);
    let once = expand_spec(e, m);
    lemma_segment_start_is(text, a, ' ', a);
    lemma_segment_end_is(text, b, ' ', b);
    lemma_index_of_offset(text, a);
    lemma_index_of_offset(text, b);
    let twice = expand_spec(once.0, once.1);
    assert(twice.0.selection =~= once.0.selection);
    assert(twice.1.content =~= once.1.content);
}

/// A reduction restores what the toggle selected. From every state with a
/// span selected that has the marker-free text and the original span of the
/// state after the toggle, a reduction leads back to that state: the
/// one-character selection, the buffer with the markers around it, and the
/// cursor behind the opening marker.
pub proof fn lemma_reduce_restores(
    e0: SelectionState,
    m0: TextState,
    e: SelectionState,
    m: TextState,
)
    requires
        !selected(e0),
        valid_offset(m0.content, m0.cursor),
        m0.cursor < byte_len(m0.content),
        selected(e),
        strip_markers_spec(m.content) == m0.content,
        e.original_start == toggle_spec(e0, m0).0.original_start,
        e.original_end == toggle_spec(e0, m0).0.original_end,
    ensures
        reduce_ready(e, m),
        reduce_spec(e, m) == toggle_spec(e0, m0),
{
    let s = m0.content;
    let i = index_of(s, m0.cursor);
    lemma_offset_of_index(s, m0.cursor);
    lemma_offset_step(s, i);
    lemma_index_of_offset(s, i + 1);
    let back = reduce_spec(e, m);
    let on = toggle_spec(e0, m0);
    assert(back.0.selection =~= on.0.selection);
    assert(back.1.content =~= on.1.content);
}

/// The selection and the buffer after `n` expansions in a row.
pub open spec fn expand_times(e: SelectionState, m: TextState, n: nat) -> (
    SelectionState,
    TextState,
)
    decreases n,
{
    if n == 0 {
        (e, m)
    } else {
        let before = expand_times(e, m, (n - 1) as nat);
        expand_spec(before.0, before.1)
    }
}

/// In a text without `<` and `>`, expansions after a toggle keep the
/// marker-free text and the original span, and every one of them finds its
/// input ready.
pub proof fn lemma_expansions_keep(e0: SelectionState, m0: TextState, n: nat)
    requires
        !selected(e0),
        valid_offset(m0.content, m0.cursor),
        m0.cursor < byte_len(m0.content),
        marker_free(m0.content),
    ensures
        ({
            let on = toggle_spec(e0, m0);
            let then = expand_times(on.0, on.1, n);
            &&& selected(then.0)
            &&& well_formed(then.0)
            &&& expand_ready(then.0, then.1)
            &&& strip_markers_spec(then.1.content) == m0.content
            &&& then.0.original_start == on.0.original_start
            &&& then.0.original_end == on.0.original_end
        }),
    decreases n,
{
    let s = m0.content;
    let on = toggle_spec(e0, m0);
    if n == 0 {
        let i = index_of(s, m0.cursor);
        lemma_offset_of_index(s, m0.cursor);
        lemma_offset_step(s, i);
        lemma_index_of_offset(s, i + 1);
        lemma_marker_free_strips_clean(s, i, i + 1);
        lemma_encode_subrange(s, i, i + 1);
    } else {
        lemma_expansions_keep(e0, m0, (n - 1) as nat);
        let before = expand_times(on.0, on.1, (n - 1) as nat);
        let i = index_of(s, before.0.start);
        let j = index_of(s, before.0.end);
        lemma_offset_of_index(s, before.0.start);
        lemma_offset_of_index(s, before.0.end);
        lemma_offset_order(s, before.0.start, before.0.end);
        lemma_segment_start(s, i, ' ');
        lemma_segment_end(s, j, ' ');
        lemma_marker_free_strips_clean(s, word_start(s, i), word_end(s, j));
        lemma_expand_keeps(before.0, before.1);
    }
}

/// In a text without `<` and `>`, a reduction after a toggle and any number
/// of expansions restores the state after the toggle: the one-character
/// selection that the toggle recorded, shown between the markers.
pub proof fn lemma_reduce_after_expansions(e0: SelectionState, m0: TextState, n: nat)
    requires
        !selected(e0),
        valid_offset(m0.content, m0.cursor),
        m0.cursor < byte_len(m0.content),
        marker_free(m0.content),
    ensures
        ({
            let on = toggle_spec(e0, m0);
            let then = expand_times(on.0, on.1, n);
            &&& reduce_ready(then.0, then.1)
            &&& reduce_spec(then.0, then.1) == on
        }),
{
    let on = toggle_spec(e0, m0);
    let then = expand_times(on.0, on.1, n);
    lemma_expansions_keep(e0, m0, n);
    lemma_reduce_restores(e0, m0, then.0, then.1);
}

/// In a text without `<` and `>`, once a toggled selection has been expanded,
/// further expansions change nothing.
pub proof fn lemma_expansions_settle(e0: SelectionState, m0: TextState, n: nat)
    requires
        !selected(e0),
        valid_offset(m0.content, m0.cursor),
        m0.cursor < byte_len(m0.content),
        marker_free(m0.content),
        n >= 1,
    ensures
        expand_times(toggle_spec(e0, m0).0, toggle_spec(e0, m0).1, n) == expand_times(
            toggle_spec(e0, m0).0,
            toggle_spec(e0, m0).1,
            1,
        ),
    decreases n,
{
    let on = toggle_spec(e0, m0);
    let s = m0.content;
    reveal_with_fuel(expand_times, 2);
    if n > 1 {
        lemma_expansions_settle(e0, m0, (n - 1) as nat);
        lemma_expansions_keep(e0, m0, 0);
        let i = index_of(s, on.0.start);
        let j = index_of(s, on.0.end);
        lemma_offset_of_index(s, on.0.start);
        lemma_offset_of_index(s, on.0.end);
        lemma_offset_order(s, on.0.start, on.0.end);
        lemma_segment_start(s, i, ' ');
        lemma_segment_end(s, j, ' ');
        lemma_marker_free_strips_clean(s, word_start(s, i), word_end(s, j));
        lemma_expand_idempotent(on.0, on.1);
    }
}

} // verus!
