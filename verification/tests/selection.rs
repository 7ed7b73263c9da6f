use editor_core::command::Command;
use editor_core::markers::{render, strip_markers, unmark_first};
use editor_core::selection::Editor;
use editor_core::text_model::TextModel;

fn buffer(content: &str, cursor: usize) -> TextModel {
    let mut model = TextModel::new();
    model.set_content(String::from(content));
    model.set_cursor(cursor);
    model
}

#[test]
fn new_model_is_empty() {
    let model = TextModel::new();
    assert_eq!(model.get_content(), "");
    assert_eq!(model.get_cursor(), 0);
    assert!(model.is_valid());
}

#[test]
fn model_keeps_what_is_set() {
    let mut model = TextModel::new();
    model.set_content(String::from("héllo"));
    assert_eq!(model.get_content(), "héllo");
    assert_eq!(model.get_cursor(), 0);
    model.set_cursor(3);
    assert_eq!(model.get_cursor(), 3);
    assert_eq!(model.get_content(), "héllo");
    assert!(model.is_valid());
    model.set_cursor(2);
    assert!(!model.is_valid());
    model.set_cursor(6);
    assert!(model.is_valid());
    model.set_cursor(7);
    assert!(!model.is_valid());
    model.set_content(String::from("abcdefgh"));
    assert_eq!(model.get_cursor(), 7);
    assert!(model.is_valid());
}

#[test]
fn new_editor_has_no_selection() {
    let editor = Editor::new();
    assert!(!editor.is_selected());
    assert_eq!(editor.selection(), "");
    assert_eq!(editor.selection_start(), 0);
    assert_eq!(editor.selection_end(), 0);
    assert_eq!(editor.original_selection_start(), 0);
    assert_eq!(editor.original_selection_end(), 0);
}

#[test]
fn update_selection_takes_the_span() {
    let mut editor = Editor::new();
    editor.update_selection("hello wörld", 6, 9);
    assert_eq!(editor.selection(), "wö");
    assert_eq!(editor.selection_start(), 6);
    assert_eq!(editor.selection_end(), 9);
    assert_eq!(editor.original_selection_start(), 0);
    assert_eq!(editor.original_selection_end(), 0);
    assert!(editor.is_selected());
}

#[test]
fn update_selection_with_equal_offsets_clears() {
    let mut editor = Editor::new();
    editor.update_selection("hello", 1, 3);
    editor.update_selection("hello", 4, 4);
    assert_eq!(editor.selection(), "");
    assert_eq!(editor.selection_start(), 4);
    assert_eq!(editor.selection_end(), 4);
    assert!(!editor.is_selected());
}

#[test]
fn toggle_selects_the_character_at_the_cursor() {
    let mut editor = Editor::new();
    let mut model = buffer("hello world", 0);
    editor.toggle_selection(&mut model);
    assert_eq!(model.get_content(), "<|h|>ello world");
    assert_eq!(model.get_cursor(), 2);
    assert_eq!(editor.selection(), "h");
    assert_eq!(editor.selection_start(), 0);
    assert_eq!(editor.selection_end(), 1);
    assert_eq!(editor.original_selection_start(), 0);
    assert_eq!(editor.original_selection_end(), 1);
}

#[test]
fn toggle_twice_restores_the_text() {
    let mut editor = Editor::new();
    let mut model = buffer("hello world", 4);
    editor.toggle_selection(&mut model);
    assert_eq!(model.get_content(), "hell<|o|> world");
    assert_eq!(model.get_cursor(), 6);
    editor.toggle_selection(&mut model);
    assert_eq!(model.get_content(), "hello world");
    assert_eq!(model.get_cursor(), 4);
    assert_eq!(editor.selection(), "");
    assert_eq!(editor.selection_start(), 6);
    assert_eq!(editor.selection_end(), 6);
    assert_eq!(editor.original_selection_start(), 4);
    assert_eq!(editor.original_selection_end(), 5);
}

#[test]
fn toggle_selects_a_whole_multibyte_character() {
    let mut editor = Editor::new();
    let mut model = buffer("café!", 3);
    editor.toggle_selection(&mut model);
    assert_eq!(model.get_content(), "caf<|é|>!");
    assert_eq!(model.get_cursor(), 5);
    assert_eq!(editor.selection(), "é");
    assert_eq!(editor.selection_start(), 3);
    assert_eq!(editor.selection_end(), 5);
    assert!(model.is_valid());
    editor.toggle_selection(&mut model);
    assert_eq!(model.get_content(), "café!");
    assert_eq!(model.get_cursor(), 3);
}

#[test]
fn toggle_at_the_end_of_the_text_does_nothing() {
    let mut editor = Editor::new();
    let mut model = buffer("abc", 3);
    editor.toggle_selection(&mut model);
    assert_eq!(model.get_content(), "abc");
    assert_eq!(model.get_cursor(), 3);
    assert!(!editor.is_selected());
    let mut empty = buffer("", 0);
    editor.toggle_selection(&mut empty);
    assert_eq!(empty.get_content(), "");
    assert_eq!(empty.get_cursor(), 0);
}

#[test]
fn toggle_off_moves_the_cursor_back_but_not_past_the_start() {
    let mut editor = Editor::new();
    let mut model = buffer("ab", 0);
    editor.toggle_selection(&mut model);
    model.set_cursor(1);
    editor.toggle_selection(&mut model);
    assert_eq!(model.get_content(), "ab");
    assert_eq!(model.get_cursor(), 0);
    assert_eq!(editor.selection_start(), 1);
    assert_eq!(editor.selection_end(), 1);
}

#[test]
fn expand_grows_to_the_word() {
    let mut editor = Editor::new();
    let mut model = buffer("one two three", 5);
    editor.toggle_selection(&mut model);
    assert_eq!(model.get_content(), "one t<|w|>o three");
    editor.expand_selection(&mut model);
    assert_eq!(model.get_content(), "one <|two|> three");
    assert_eq!(model.get_cursor(), 7);
    assert_eq!(editor.selection(), "two");
    assert_eq!(editor.selection_start(), 4);
    assert_eq!(editor.selection_end(), 7);
    assert_eq!(editor.original_selection_start(), 5);
    assert_eq!(editor.original_selection_end(), 6);
}

#[test]
fn expand_reaches_the_ends_of_the_text() {
    let mut editor = Editor::new();
    let mut model = buffer("hello", 2);
    editor.toggle_selection(&mut model);
    editor.expand_selection(&mut model);
    assert_eq!(model.get_content(), "<|hello|>");
    assert_eq!(editor.selection(), "hello");
    assert_eq!(editor.selection_start(), 0);
    assert_eq!(editor.selection_end(), 5);
}

#[test]
fn expand_stops_at_spaces_only() {
    let mut editor = Editor::new();
    let mut model = buffer("a b,c\td\ne f", 4);
    editor.toggle_selection(&mut model);
    editor.expand_selection(&mut model);
    assert_eq!(editor.selection(), "b,c\td\ne");
    assert_eq!(model.get_content(), "a <|b,c\td\ne|> f");
}

#[test]
fn expand_twice_changes_nothing_more() {
    let mut editor = Editor::new();
    let mut model = buffer("hello wörld again", 7);
    editor.toggle_selection(&mut model);
    editor.expand_selection(&mut model);
    let content = String::from(model.get_content());
    let cursor = model.get_cursor();
    assert_eq!(content, "hello <|wörld|> again");
    assert_eq!(editor.selection(), "wörld");
    editor.expand_selection(&mut model);
    assert_eq!(model.get_content(), content);
    assert_eq!(model.get_cursor(), cursor);
    assert_eq!(editor.selection(), "wörld");
    assert_eq!(editor.selection_start(), 6);
    assert_eq!(editor.selection_end(), 12);
}

#[test]
fn expand_from_a_space_takes_both_neighbours() {
    let mut editor = Editor::new();
    let mut model = buffer("ab cd ef", 2);
    editor.toggle_selection(&mut model);
    assert_eq!(editor.selection(), " ");
    editor.expand_selection(&mut model);
    assert_eq!(editor.selection(), "ab cd");
    assert_eq!(model.get_content(), "<|ab cd|> ef");
}

#[test]
fn reduce_returns_to_the_toggled_character() {
    let mut editor = Editor::new();
    let mut model = buffer("hello world", 2);
    editor.toggle_selection(&mut model);
    assert_eq!(model.get_content(), "he<|l|>lo world");
    editor.expand_selection(&mut model);
    editor.expand_selection(&mut model);
    assert_eq!(model.get_content(), "<|hello|> world");
    model.set_cursor(0);
    editor.reduce_selection(&mut model);
    assert_eq!(model.get_content(), "he<|l|>lo world");
    assert_eq!(model.get_cursor(), 4);
    assert_eq!(editor.selection(), "l");
    assert_eq!(editor.selection_start(), 2);
    assert_eq!(editor.selection_end(), 3);
    assert_eq!(editor.original_selection_start(), 2);
    assert_eq!(editor.original_selection_end(), 3);
}

#[test]
fn reduce_without_expansion_keeps_the_selection() {
    let mut editor = Editor::new();
    let mut model = buffer("héllo", 1);
    editor.toggle_selection(&mut model);
    editor.reduce_selection(&mut model);
    assert_eq!(model.get_content(), "h<|é|>llo");
    assert_eq!(model.get_cursor(), 3);
    assert_eq!(editor.selection(), "é");
}

#[test]
fn expand_and_reduce_without_selection_do_nothing() {
    let mut editor = Editor::new();
    let mut model = buffer("hello world", 3);
    editor.expand_selection(&mut model);
    assert_eq!(model.get_content(), "hello world");
    assert_eq!(model.get_cursor(), 3);
    assert!(!editor.is_selected());
    editor.reduce_selection(&mut model);
    assert_eq!(model.get_content(), "hello world");
    assert_eq!(model.get_cursor(), 3);
    assert_eq!(editor.selection_start(), 0);
    assert_eq!(editor.selection_end(), 0);
}

#[test]
fn strip_markers_removes_both_markers() {
    assert_eq!(strip_markers("a<|b|>c"), "abc");
    assert_eq!(strip_markers("<|é|>"), "é");
    assert_eq!(strip_markers("no markers"), "no markers");
    assert_eq!(strip_markers(""), "");
    assert_eq!(strip_markers("<|<||>|>"), "");
}

#[test]
fn strip_markers_scans_once_from_the_left() {
    assert_eq!(strip_markers("<<||>"), "<");
    assert_eq!(strip_markers("|<|>"), "");
    assert_eq!(strip_markers("<|>"), ">");
    assert_eq!(strip_markers("<<||"), "<|");
    assert_eq!(strip_markers("<|<"), "<");
}

#[test]
fn render_sets_the_markers() {
    assert_eq!(render("hello", 1, 3), "h<|el|>lo");
    assert_eq!(render("hello", 0, 5), "<|hello|>");
    assert_eq!(render("hello", 2, 2), "he<||>llo");
    assert_eq!(render("aé", 1, 3), "a<|é|>");
}

#[test]
fn unmark_first_takes_the_first_occurrence_only() {
    assert_eq!(unmark_first("<|a|><|a|>", "a"), "a<|a|>");
    assert_eq!(unmark_first("x<|b|>y<|a|>z", "a"), "x<|b|>yaz");
    assert_eq!(unmark_first("abc", "b"), "abc");
    assert_eq!(unmark_first("<|ab|>", "a"), "<|ab|>");
    assert_eq!(unmark_first("é<|ü|>", "ü"), "éü");
    assert_eq!(unmark_first("<||>", ""), "");
    assert_eq!(unmark_first("", "a"), "");
}

#[test]
fn accepts_tells_when_a_command_can_run() {
    let editor = Editor::new();
    let good = buffer("é", 2);
    let bad = buffer("é", 1);
    let beyond = buffer("é", 3);
    for command in [Command::MoveLeft, Command::MoveRight, Command::MoveUp, Command::MoveDown] {
        assert!(editor.accepts(&good, command));
        assert!(!editor.accepts(&bad, command));
        assert!(!editor.accepts(&beyond, command));
    }
    assert!(editor.accepts(&good, Command::ToggleSelection));
    assert!(!editor.accepts(&bad, Command::ToggleSelection));
    assert!(editor.accepts(&bad, Command::ExpandSelection));
    assert!(editor.accepts(&bad, Command::ReduceSelection));
}

#[test]
fn accepts_checks_the_boundaries_of_a_selection() {
    let mut editor = Editor::new();
    let mut model = buffer("aé b", 1);
    editor.toggle_selection(&mut model);
    assert!(editor.accepts(&model, Command::ToggleSelection));
    assert!(editor.accepts(&model, Command::ExpandSelection));
    assert!(editor.accepts(&model, Command::ReduceSelection));
    let shorter = buffer("ab", 0);
    assert!(!editor.accepts(&shorter, Command::ExpandSelection));
    assert!(!editor.accepts(&shorter, Command::ReduceSelection));
    let shifted = buffer("éa b", 0);
    assert!(!editor.accepts(&shifted, Command::ExpandSelection));
    assert!(!editor.accepts(&shifted, Command::ReduceSelection));
}

#[test]
fn handle_runs_a_session() {
    let mut editor = Editor::new();
    let mut model = buffer("ab cd\nef gh", 0);
    editor.handle(&mut model, Command::MoveRight);
    assert_eq!(model.get_cursor(), 1);
    editor.handle(&mut model, Command::MoveDown);
    assert_eq!(model.get_cursor(), 7);
    editor.handle(&mut model, Command::MoveUp);
    assert_eq!(model.get_cursor(), 1);
    editor.handle(&mut model, Command::MoveLeft);
    assert_eq!(model.get_cursor(), 0);
    editor.handle(&mut model, Command::MoveRight);
    editor.handle(&mut model, Command::ToggleSelection);
    assert_eq!(model.get_content(), "a<|b|> cd\nef gh");
    assert_eq!(model.get_cursor(), 3);
    editor.handle(&mut model, Command::ExpandSelection);
    assert_eq!(model.get_content(), "<|ab|> cd\nef gh");
    assert_eq!(editor.selection(), "ab");
    editor.handle(&mut model, Command::ReduceSelection);
    assert_eq!(model.get_content(), "a<|b|> cd\nef gh");
    assert_eq!(model.get_cursor(), 3);
    editor.handle(&mut model, Command::ToggleSelection);
    assert_eq!(model.get_content(), "ab cd\nef gh");
    assert_eq!(model.get_cursor(), 1);
    assert!(!editor.is_selected());
}

#[test]
fn toggle_off_unmarks_the_first_occurrence_in_the_buffer() {
    let mut editor = Editor::new();
    let mut model = buffer("<|a|>a", 5);
    editor.toggle_selection(&mut model);
    assert_eq!(model.get_content(), "<|a|><|a|>");
    assert_eq!(model.get_cursor(), 7);
    editor.toggle_selection(&mut model);
    assert_eq!(model.get_content(), "a<|a|>");
    assert_eq!(model.get_cursor(), 5);
}

#[test]
fn toggle_off_leaves_a_buffer_without_the_marked_text() {
    let mut editor = Editor::new();
    let mut model = buffer("abc", 1);
    editor.toggle_selection(&mut model);
    model.set_content(String::from("edited"));
    editor.toggle_selection(&mut model);
    assert_eq!(model.get_content(), "edited");
    assert_eq!(model.get_cursor(), 1);
    assert!(!editor.is_selected());
    assert_eq!(editor.selection_start(), 3);
    assert_eq!(editor.selection_end(), 3);
}

#[test]
fn reduce_after_many_expansions_restores_the_toggled_state() {
    let mut editor = Editor::new();
    let mut model = buffer("über alles gut", 7);
    editor.toggle_selection(&mut model);
    let content = String::from(model.get_content());
    let cursor = model.get_cursor();
    assert_eq!(content, "über a<|l|>les gut");
    for _ in 0..3 {
        editor.expand_selection(&mut model);
        assert_eq!(model.get_content(), "über <|alles|> gut");
        assert_eq!(editor.selection(), "alles");
    }
    editor.reduce_selection(&mut model);
    assert_eq!(model.get_content(), content);
    assert_eq!(model.get_cursor(), cursor);
    assert_eq!(editor.selection(), "l");
    assert_eq!(editor.selection_start(), 7);
    assert_eq!(editor.selection_end(), 8);
}

#[test]
fn try_handle_refuses_what_is_not_ready() {
    let mut editor = Editor::new();
    let mut model = buffer("é", 1);
    assert!(!editor.try_handle(&mut model, Command::MoveRight));
    assert_eq!(model.get_content(), "é");
    assert_eq!(model.get_cursor(), 1);
    assert!(!editor.try_handle(&mut model, Command::ToggleSelection));
    assert!(!editor.is_selected());
    model.set_cursor(0);
    assert!(editor.try_handle(&mut model, Command::MoveRight));
    assert_eq!(model.get_cursor(), 2);
    assert!(editor.try_handle(&mut model, Command::MoveLeft));
    assert!(editor.try_handle(&mut model, Command::ToggleSelection));
    assert_eq!(model.get_content(), "<|é|>");
    assert_eq!(model.get_cursor(), 2);
}
