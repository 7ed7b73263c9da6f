//! The buffer: its text and the cursor, a byte offset into the text.

use vstd::prelude::*;
use crate::offsets::{lemma_offset_ends, lemma_valid_offset_is_char_boundary, valid_offset};

verus! {

/// What a buffer holds: the characters of its text and the cursor.
#[verifier::ext_equal]
pub struct TextState {
    pub content: Seq<char>,
    pub cursor: int,
}

/// A text buffer with a cursor.
///
/// The buffer itself accepts any content and any cursor. The operations that
/// move the cursor or slice the text at it ask for a buffer whose cursor lies
/// on a character boundary of the content, see [`TextModel::wf`].
#[derive(Clone, Debug)]
pub struct TextModel {
    content: String,
    cursor: usize,
}

impl View for TextModel {
    type V = TextState;

    closed spec fn view(&self) -> TextState {
        TextState { content: self.content@, cursor: self.cursor as int }
    }
}

impl TextModel {
    /// True when the cursor lies on a character boundary of the content, its
    /// start and end included.
    pub open spec fn wf(&self) -> bool {
        valid_offset(self@.content, self@.cursor)
    }

    /// An empty buffer with the cursor at its start.
    pub fn new() -> (model: TextModel)
        ensures
            model@.content == Seq::<char>::empty(),
            model@.cursor == 0,
            model.wf(),
    {
        let model = TextModel { content: String::new(), cursor: 0 };
        proof {
            lemma_offset_ends(model@.content);
        }
        model
    }

    /// The text of the buffer.
    pub fn get_content(&self) -> (content: &str)
        ensures
            content@ == self@.content,
    {
        self.content.as_str()
    }

    /// Replaces the text of the buffer and leaves the cursor as it is.
    pub fn set_content(&mut self, new_content: String)
        ensures
            final(self)@.content == new_content@,
            final(self)@.cursor == old(self)@.cursor,
    {
        self.content = new_content;
    }

    /// The cursor of the buffer.
    pub fn get_cursor(&self) -> (cursor: usize)
        ensures
            cursor == self@.cursor,
    {
        self.cursor
    }

    /// Moves the cursor to `offset` and leaves the text as it is.
    pub fn set_cursor(&mut self, offset: usize)
        ensures
            final(self)@.cursor == offset,
            final(self)@.content == old(self)@.content,
    {
        self.cursor = offset;
    }

    /// Tells whether the cursor lies on a character boundary of the content.
    pub fn is_valid(&self) -> (valid: bool)
        ensures
            valid == self.wf(),
    {
        proof {
            lemma_valid_offset_is_char_boundary(self@.content, self@.cursor);
        }
        self.content.as_str().is_char_boundary(self.cursor)
    }
}

} // verus!
