//! The commands of the editor and their dispatch.

use vstd::prelude::*;
use crate::markers::strip_markers;
use crate::navigator::{
    move_down, move_down_spec, move_left, move_left_spec, move_right, move_right_spec, move_up,
    move_up_spec,
};
use crate::offsets::{lemma_valid_offset_is_char_boundary, valid_offset};
use crate::selection::{
    expand_ready, expand_spec, reduce_ready, reduce_spec, toggle_ready, toggle_spec, Editor,
    SelectionState,
};
use crate::text_model::{TextModel, TextState};
use crate::transform::{transform, transform_spec, Choice};

verus! {

/// A command to the editor.
#[derive(Clone, Copy, Debug)]
pub enum Command {
    /// Move the cursor one character to the left.
    MoveLeft,
    /// Move the cursor one character to the right.
    MoveRight,
    /// Move the cursor one line up.
    MoveUp,
    /// Move the cursor one line down.
    MoveDown,
    /// Select the character at the cursor, or clear the selection.
    ToggleSelection,
    /// Grow the selection to the spaces around it.
    ExpandSelection,
    /// Return to the selection that the last toggle made.
    ReduceSelection,
    /// Transform the text of the buffer.
    Transform(Choice),
}

/// True for the four commands that move the cursor.
pub open spec fn is_move(command: Command) -> bool {
    command is MoveLeft || command is MoveRight || command is MoveUp || command is MoveDown
}

/// What a command asks of the selection and the buffer it is applied to. The
/// moves ask for a cursor on a character boundary; a transformation asks for
/// nothing.
pub open spec fn command_ready(e: SelectionState, m: TextState, command: Command) -> bool {
    match command {
        Command::MoveLeft | Command::MoveRight | Command::MoveUp | Command::MoveDown => {
            valid_offset(m.content, m.cursor)
        },
        Command::ToggleSelection => toggle_ready(e, m),
        Command::ExpandSelection => expand_ready(e, m),
        Command::ReduceSelection => reduce_ready(e, m),
        Command::Transform(_) => true,
    }
}

/// The selection and the buffer after a command.
pub open spec fn command_spec(e: SelectionState, m: TextState, command: Command) -> (
    SelectionState,
    TextState,
) {
    match command {
        Command::MoveLeft => (
            e,
            TextState { content: m.content, cursor: move_left_spec(m.content, m.cursor) },
        ),
        Command::MoveRight => (
            e,
            TextState { content: m.content, cursor: move_right_spec(m.content, m.cursor) },
        ),
        Command::MoveUp => (
            e,
            TextState { content: m.content, cursor: move_up_spec(m.content, m.cursor) },
        ),
        Command::MoveDown => (
            e,
            TextState { content: m.content, cursor: move_down_spec(m.content, m.cursor) },
        ),
        Command::ToggleSelection => toggle_spec(e, m),
        Command::ExpandSelection => expand_spec(e, m),
        Command::ReduceSelection => reduce_spec(e, m),
        Command::Transform(mode) => (
            e,
            TextState { content: transform_spec(m.content, mode), cursor: m.cursor },
        ),
    }
}

impl Editor {
    /// Tells whether `command` can be applied to this selection and `model`.
    pub fn accepts(&self, model: &TextModel, command: Command) -> (ready: bool)
        ensures
            ready == command_ready(self@, model@, command),
    {
        match command {
            Command::MoveLeft | Command::MoveRight | Command::MoveUp | Command::MoveDown => {
                model.is_valid()
            },
            Command::ToggleSelection => self.is_selected() || model.is_valid(),
            Command::ExpandSelection => {
                !self.is_selected() || {
                    let text = strip_markers(model.get_content());
                    self.selection_start() <= self.selection_end() && on_boundary(
                        text.as_str(),
                        self.selection_start(),
                    ) && on_boundary(text.as_str(), self.selection_end())
                }
            },
            Command::ReduceSelection => {
                !self.is_selected() || {
                    let text = strip_markers(model.get_content());
                    self.original_selection_start() <= self.original_selection_end() && on_boundary(
                        text.as_str(),
                        self.original_selection_start(),
                    ) && on_boundary(text.as_str(), self.original_selection_end())
                }
            },
            Command::Transform(_) => true,
        }
    }

    /// Applies `command` to this selection and `model`.
    pub fn handle(&mut self, model: &mut TextModel, command: Command)
        requires
            command_ready(old(self)@, old(model)@, command),
        ensures
            final(self)@ == command_spec(old(self)@, old(model)@, command).0,
            final(model)@ == command_spec(old(self)@, old(model)@, command).1,
            old(self).wf() ==> final(self).wf(),
            is_move(command) ==> final(model).wf(),
    {
        match command {
            Command::MoveLeft => {
                let cursor = move_left(model.get_content(), model.get_cursor());
                model.set_cursor(cursor);
            },
            Command::MoveRight => {
                let cursor = move_right(model.get_content(), model.get_cursor());
                model.set_cursor(cursor);
            },
            Command::MoveUp => {
                let cursor = move_up(model.get_content(), model.get_cursor());
                model.set_cursor(cursor);
            },
            Command::MoveDown => {
                let cursor = move_down(model.get_content(), model.get_cursor());
                model.set_cursor(cursor);
            },
            Command::ToggleSelection => self.toggle_selection(model),
            Command::ExpandSelection => self.expand_selection(model),
            Command::ReduceSelection => self.reduce_selection(model),
            Command::Transform(mode) => {
                let content = transform(model.get_content(), mode);
                model.set_content(content);
            },
        }
    }

    /// Applies `command` where the selection and `model` are ready for it, and
    /// tells whether it did; otherwise changes nothing.
    pub fn try_handle(&mut self, model: &mut TextModel, command: Command) -> (applied: bool)
        ensures
            applied == command_ready(old(self)@, old(model)@, command),
            applied ==> final(self)@ == command_spec(old(self)@, old(model)@, command).0,
            applied ==> final(model)@ == command_spec(old(self)@, old(model)@, command).1,
            !applied ==> final(self)@ == old(self)@ && final(model)@ == old(model)@,
            old(self).wf() ==> final(self).wf(),
    {
        if self.accepts(model, command) {
            self.handle(model, command);
            true
        } else {
            false
        }
    }
}

/// Tells whether `offset` lies on a character boundary of `text`.
fn on_boundary(text: &str, offset: usize) -> (valid: bool)
    ensures
        valid == valid_offset(text@, offset as int),
{
    proof {
        lemma_valid_offset_is_char_boundary(text@, offset as int);
    }
    text.is_char_boundary(offset)
}

} // verus!
