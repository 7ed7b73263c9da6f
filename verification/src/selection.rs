//! The selection: one span of the buffer, tracked by byte offsets into the
//! marker-free text and shown in the buffer between inline markers.
//!
//! The selection is either idle (no span) or selected. A toggle creates a
//! one-character selection at the cursor or clears the selection; an
//! expansion grows the selection to the spaces around it; a reduction
//! returns to the span that the last toggle created.

use vstd::prelude::*;
use crate::markers::{
    lemma_marker_bytes, lemma_render_len, open_marker, render, render_spec, strip_markers,
    strip_markers_spec, unmark_first, unmark_first_spec,
};
use crate::offsets::{
    byte_len, char_width, char_width_at, index_of, lemma_encode_concat, lemma_index_of_offset,
    lemma_offset_ends, lemma_offset_of_index, lemma_offset_order, offset_of, slice, valid_offset,
};
use crate::segments::{
    lemma_segment_end, lemma_segment_start, segment_end, segment_end_offset, segment_start,
    segment_start_offset,
};
use crate::text_model::{TextModel, TextState};

verus! {

/// The byte that bounds a word.
pub const SPACE: u8 = 0x20;

/// What a selection holds.
#[verifier::ext_equal]
pub struct SelectionState {
    /// The selected text; empty while nothing is selected.
    pub selection: Seq<char>,
    /// Byte offset of the selection's start in the marker-free text.
    pub start: int,
    /// Byte offset of the selection's end in the marker-free text.
    pub end: int,
    /// Start of the span that the last toggle selected.
    pub original_start: int,
    /// End of the span that the last toggle selected.
    pub original_end: int,
}

/// The selection state of an editor.
#[derive(Clone, Debug)]
pub struct Editor {
    selection: String,
    selection_start: usize,
    selection_end: usize,
    original_selection_start: usize,
    original_selection_end: usize,
}

impl View for Editor {
    type V = SelectionState;

    closed spec fn view(&self) -> SelectionState {
        SelectionState {
            selection: self.selection@,
            start: self.selection_start as int,
            end: self.selection_end as int,
            original_start: self.original_selection_start as int,
            original_end: self.original_selection_end as int,
        }
    }
}

/// True when a span is selected.
pub open spec fn selected(e: SelectionState) -> bool {
    e.selection.len() > 0
}

/// The invariant of a selection: its start does not lie behind its end, and
/// the selected text has as many bytes as lie between the two. An idle
/// selection therefore has its start at its end.
pub open spec fn well_formed(e: SelectionState) -> bool {
    0 <= e.start <= e.end && byte_len(e.selection) == e.end - e.start
}

/// The selection after its boundaries are set to the byte offsets `start` and
/// `end` of `content`: the text between them, none where they are equal.
pub open spec fn update_spec(e: SelectionState, content: Seq<char>, start: int, end: int)
    -> SelectionState {
    SelectionState {
        selection: if start == end {
            Seq::<char>::empty()
        } else {
            content.subrange(index_of(content, start), index_of(content, end))
        },
        start: start,
        end: end,
        original_start: e.original_start,
        original_end: e.original_end,
    }
}

impl Editor {
    /// See [`well_formed`].
    pub open spec fn wf(&self) -> bool {
        well_formed(self@)
    }

    /// An editor with nothing selected.
    pub fn new() -> (editor: Editor)
        ensures
            editor@.selection == Seq::<char>::empty(),
            editor@.start == 0,
            editor@.end == 0,
            editor@.original_start == 0,
            editor@.original_end == 0,
            editor.wf(),
    {
        Editor {
            selection: String::new(),
            selection_start: 0,
            selection_end: 0,
            original_selection_start: 0,
            original_selection_end: 0,
        }
    }

    /// Sets the selection to the span of `content` between the byte offsets
    /// `selection_start` and `selection_end`; equal offsets clear it.
    pub fn update_selection(&mut self, content: &str, selection_start: usize, selection_end: usize)
        requires
            valid_offset(content@, selection_start as int),
            valid_offset(content@, selection_end as int),
            selection_start <= selection_end,
        ensures
            final(self)@ == update_spec(
                old(self)@,
                content@,
                selection_start as int,
                selection_end as int,
            ),
            final(self).wf(),
    {
        if selection_start == selection_end {
            self.selection = String::new();
        } else {
            self.selection = slice(content, selection_start, selection_end).to_owned();
        }
        self.selection_start = selection_start;
        self.selection_end = selection_end;
    }
}

/// Index at which the word around position `i` begins: just behind the
/// nearest space in front of `i`, or the start of the text.
pub open spec fn word_start(s: Seq<char>, i: int) -> int {
    segment_start(s, i, ' ')
}

/// Index at which the word around position `i` ends: that of the nearest
/// space at or behind `i`, or the end of the text.
pub open spec fn word_end(s: Seq<char>, i: int) -> int {
    segment_end(s, i, ' ')
}

/// A toggle with nothing selected. It selects the character at the cursor,
/// records its span as the current and the original one, sets the character
/// between the markers and moves the cursor behind the opening marker. With
/// the cursor at the end of the text it changes nothing.
pub open spec fn toggle_on_spec(e: SelectionState, m: TextState) -> (SelectionState, TextState) {
    if m.cursor >= byte_len(m.content) {
        (e, m)
    } else {
        let i = index_of(m.content, m.cursor);
        let end = m.cursor + char_width(m.content[i]);
        (
            SelectionState {
                selection: m.content.subrange(i, i + 1),
                start: m.cursor,
                end: end,
                original_start: m.cursor,
                original_end: end,
            },
            TextState { content: render_spec(m.content, i, i + 1), cursor: m.cursor + 2 },
        )
    }
}

/// A toggle with a span selected. It takes the markers away from around the
/// first occurrence of the marked selection, clears the selection with both
/// boundaries at the cursor, and moves the cursor two bytes back, not past
/// the start. The original span stays recorded.
pub open spec fn toggle_off_spec(e: SelectionState, m: TextState) -> (SelectionState, TextState) {
    (
        SelectionState {
            selection: Seq::<char>::empty(),
            start: m.cursor,
            end: m.cursor,
            original_start: e.original_start,
            original_end: e.original_end,
        },
        TextState {
            content: unmark_first_spec(m.content, e.selection),
            cursor: if m.cursor >= 2 {
                m.cursor - 2
            } else {
                0
            },
        },
    )
}

/// The effect of a toggle on the selection and the buffer.
pub open spec fn toggle_spec(e: SelectionState, m: TextState) -> (SelectionState, TextState) {
    if selected(e) {
        toggle_off_spec(e, m)
    } else {
        toggle_on_spec(e, m)
    }
}

/// The effect of an expansion. With a span selected, the markers are stripped
/// from the buffer, the start of the span moves back to just behind the
/// nearest space in front of it (or to the start of the text), its end moves
/// on to the nearest space at or behind it (or to the end of the text), and
/// the buffer shows the text with the markers around the new span. The cursor
/// and the original span stay. With nothing selected nothing changes.
pub open spec fn expand_spec(e: SelectionState, m: TextState) -> (SelectionState, TextState) {
    if !selected(e) {
        (e, m)
    } else {
        let text = strip_markers_spec(m.content);
        let a = word_start(text, index_of(text, e.start));
        let b = word_end(text, index_of(text, e.end));
        (
            update_spec(e, text, offset_of(text, a), offset_of(text, b)),
            TextState { content: render_spec(text, a, b), cursor: m.cursor },
        )
    }
}

/// The effect of a reduction. With a span selected, the markers are stripped
/// from the buffer, the selection returns to the original span, the buffer
/// shows the text with the markers around that span, and the cursor stands
/// two bytes behind the span's start. With nothing selected nothing changes.
pub open spec fn reduce_spec(e: SelectionState, m: TextState) -> (SelectionState, TextState) {
    if !selected(e) {
        (e, m)
    } else {
        let text = strip_markers_spec(m.content);
        (
            update_spec(e, text, e.original_start, e.original_end),
            TextState {
                content: render_spec(
                    text,
                    index_of(text, e.original_start),
                    index_of(text, e.original_end),
                ),
                cursor: e.original_start + 2,
            },
        )
    }
}

/// What a toggle asks of its input: with nothing selected, a cursor on a
/// character boundary of the buffer.
pub open spec fn toggle_ready(e: SelectionState, m: TextState) -> bool {
    !selected(e) ==> valid_offset(m.content, m.cursor)
}

/// What an expansion asks of its input: with a span selected, boundaries that
/// lie in order on character boundaries of the marker-free text.
pub open spec fn expand_ready(e: SelectionState, m: TextState) -> bool {
    selected(e) ==> {
        let text = strip_markers_spec(m.content);
        &&& valid_offset(text, e.start)
        &&& valid_offset(text, e.end)
        &&& e.start <= e.end
    }
}

/// What a reduction asks of its input: with a span selected, original
/// boundaries that lie in order on character boundaries of the marker-free
/// text.
pub open spec fn reduce_ready(e: SelectionState, m: TextState) -> bool {
    selected(e) ==> {
        let text = strip_markers_spec(m.content);
        &&& valid_offset(text, e.original_start)
        &&& valid_offset(text, e.original_end)
        &&& e.original_start <= e.original_end
    }
}

/// In the rendered text, a position inside the marked span lies two bytes
/// behind its offset in the text itself.
pub proof fn lemma_render_offset_inside(s: Seq<char>, a: int, b: int, k: int)
    requires
        0 <= a <= k <= b <= s.len(),
    ensures
        offset_of(render_spec(s, a, b), k + 2) == offset_of(s, k) + 2,
        valid_offset(render_spec(s, a, b), offset_of(s, k) + 2),
{
    let r = render_spec(s, a, b);
    lemma_marker_bytes();
    lemma_render_len(s, a, b);
    assert(r.take(k + 2) =~= s.take(a) + open_marker() + s.subrange(a, k));
    assert(s.take(k) =~= s.take(a) + s.subrange(a, k));
    lemma_encode_concat(s.take(a), open_marker());
    lemma_encode_concat(s.take(a) + open_marker(), s.subrange(a, k));
    lemma_encode_concat(s.take(a), s.subrange(a, k));
    lemma_index_of_offset(r, k + 2);
}

impl Editor {
    /// Creates a one-character selection at the cursor, or clears the
    /// selection.
    pub fn toggle_selection(&mut self, model: &mut TextModel)
        requires
            toggle_ready(old(self)@, old(model)@),
        ensures
            final(self)@ == toggle_spec(old(self)@, old(model)@).0,
            final(model)@ == toggle_spec(old(self)@, old(model)@).1,
            old(self).wf() ==> final(self).wf(),
            !selected(old(self)@) ==> final(model).wf(),
    {
        let cursor = model.get_cursor();
        if self.selection.as_str().is_empty() {
            let content = model.get_content();
            let n = content.as_bytes().len();
            proof {
                lemma_offset_of_index(content@, cursor as int);
            }
            if cursor < n {
                let width = char_width_at(content, cursor);
                let end = cursor + width;
                let new_content = render(content, cursor, end);
                let shown = new_content.as_str().as_bytes().len();
                proof {
                    let s = content@;
                    let i = index_of(s, cursor as int);
                    lemma_index_of_offset(s, i + 1);
                    lemma_render_len(s, i, i + 1);
                    lemma_render_offset_inside(s, i, i + 1, i);
                }
                self.update_selection(content, cursor, end);
                self.original_selection_start = cursor;
                self.original_selection_end = end;
                model.set_content(new_content);
                model.set_cursor(cursor + 2);
            }
        } else {
            let new_content = unmark_first(model.get_content(), self.selection.as_str());
            model.set_content(new_content);
            self.selection = String::new();
            self.selection_start = cursor;
            self.selection_end = cursor;
            model.set_cursor(
                if cursor >= 2 {
                    cursor - 2
                } else {
                    0
                },
            );
        }
    }

    /// Grows the selection to the spaces around it.
    pub fn expand_selection(&mut self, model: &mut TextModel)
        requires
            expand_ready(old(self)@, old(model)@),
        ensures
            final(self)@ == expand_spec(old(self)@, old(model)@).0,
            final(model)@ == expand_spec(old(self)@, old(model)@).1,
            old(self).wf() ==> final(self).wf(),
    {
        if self.selection.as_str().is_empty() {
            return ;
        }
        let cleaned = strip_markers(model.get_content());
        let text = cleaned.as_str();
        let start = self.selection_start;
        let end = self.selection_end;
        proof {
            let s = text@;
            lemma_offset_ends(s);
            lemma_index_of_offset(s, 0);
            lemma_offset_of_index(s, start as int);
            lemma_offset_of_index(s, end as int);
            lemma_offset_order(s, start as int, end as int);
            lemma_segment_start(s, index_of(s, start as int), ' ');
            lemma_segment_end(s, index_of(s, end as int), ' ');
            lemma_index_of_offset(s, word_start(s, index_of(s, start as int)));
            lemma_index_of_offset(s, word_end(s, index_of(s, end as int)));
        }
        let new_start = if start > 0 {
            segment_start_offset(text, start, SPACE)
        } else {
            0
        };
        let new_end = segment_end_offset(text, end, SPACE);
        let new_content = render(text, new_start, new_end);
        self.update_selection(text, new_start, new_end);
        model.set_content(new_content);
    }

    /// Returns the selection to the span that the last toggle selected.
    pub fn reduce_selection(&mut self, model: &mut TextModel)
        requires
            reduce_ready(old(self)@, old(model)@),
        ensures
            final(self)@ == reduce_spec(old(self)@, old(model)@).0,
            final(model)@ == reduce_spec(old(self)@, old(model)@).1,
            old(self).wf() ==> final(self).wf(),
            selected(old(self)@) ==> final(model).wf(),
    {
        if self.selection.as_str().is_empty() {
            return ;
        }
        let cleaned = strip_markers(model.get_content());
        let text = cleaned.as_str();
        let start = self.original_selection_start;
        let end = self.original_selection_end;
        let new_content = render(text, start, end);
        let shown = new_content.as_str().as_bytes().len();
        proof {
            let s = text@;
            let a = index_of(s, start as int);
            let b = index_of(s, end as int);
            lemma_offset_of_index(s, start as int);
            lemma_offset_of_index(s, end as int);
            lemma_offset_order(s, start as int, end as int);
            lemma_render_len(s, a, b);
            lemma_render_offset_inside(s, a, b, a);
        }
        self.update_selection(text, start, end);
        model.set_content(new_content);
        model.set_cursor(start + 2);
    }
}

impl Editor {
    /// Tells whether a span is selected.
    pub fn is_selected(&self) -> (active: bool)
        ensures
            active == selected(self@),
    {
        !self.selection.as_str().is_empty()
    }

    /// The selected text; empty while nothing is selected.
    pub fn selection(&self) -> (text: &str)
        ensures
            text@ == self@.selection,
    {
        self.selection.as_str()
    }

    /// Byte offset of the selection's start in the marker-free text.
    pub fn selection_start(&self) -> (offset: usize)
        ensures
            offset == self@.start,
    {
        self.selection_start
    }

    /// Byte offset of the selection's end in the marker-free text.
    pub fn selection_end(&self) -> (offset: usize)
        ensures
            offset == self@.end,
    {
        self.selection_end
    }

    /// Start of the span that the last toggle selected.
    pub fn original_selection_start(&self) -> (offset: usize)
        ensures
            offset == self@.original_start,
    {
        self.original_selection_start
    }

    /// End of the span that the last toggle selected.
    pub fn original_selection_end(&self) -> (offset: usize)
        ensures
            offset == self@.original_end,
    {
        self.original_selection_end
    }
}

} // verus!
