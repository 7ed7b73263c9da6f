use editor_core::command::Command;
use editor_core::selection::Editor;
use editor_core::text_model::TextModel;
use editor_core::transform::{capitalize, transform, Choice};

#[test]
fn capitalize_two_words() {
    assert_eq!(capitalize("hello world"), "Hello World");
}

#[test]
fn capitalize_empty_text() {
    assert_eq!(capitalize(""), "");
}

#[test]
fn capitalize_single_letter() {
    assert_eq!(capitalize("a"), "A");
}

#[test]
fn capitalize_collapses_whitespace() {
    assert_eq!(capitalize("  multiple   spaces\there\n"), "Multiple Spaces Here");
    assert_eq!(capitalize(" \n\t "), "");
    assert_eq!(capitalize("x\n\ny"), "X Y");
}

#[test]
fn capitalize_leaves_the_rest_of_a_word() {
    assert_eq!(capitalize("hELLO wORLD"), "HELLO WORLD");
    assert_eq!(capitalize("Already Done"), "Already Done");
    assert_eq!(capitalize("1abc"), "1abc");
}

#[test]
fn capitalize_uses_the_full_uppercase_mapping() {
    assert_eq!(capitalize("ßx"), "SSx");
    assert_eq!(capitalize("école élan"), "École Élan");
}

#[test]
fn capitalize_splits_on_unicode_whitespace_only() {
    assert_eq!(capitalize("a\u{a0}b"), "A B");
    assert_eq!(capitalize("a\u{3000}b"), "A B");
    assert_eq!(capitalize("a\u{200b}b"), "A\u{200b}b");
}

#[test]
fn transform_upper() {
    assert_eq!(transform("Hello, world", Choice::Upper), "HELLO, WORLD");
    assert_eq!(transform("straße", Choice::Upper), "STRASSE");
    assert_eq!(transform("", Choice::Upper), "");
}

#[test]
fn transform_lower() {
    assert_eq!(transform("HeLLo WORLD", Choice::Lower), "hello world");
    assert_eq!(transform("ÉCOLE", Choice::Lower), "école");
    assert_eq!(transform("", Choice::Lower), "");
}

#[test]
fn transform_capitalized() {
    assert_eq!(transform("hello world", Choice::Cap), "Hello World");
    assert_eq!(transform("", Choice::Cap), "");
    assert_eq!(transform("a", Choice::Cap), "A");
}

#[test]
fn transform_command_replaces_the_text_and_keeps_the_cursor() {
    let mut editor = Editor::new();
    let mut model = TextModel::new();
    model.set_content(String::from("hello  world"));
    model.set_cursor(3);
    assert!(editor.accepts(&model, Command::Transform(Choice::Upper)));
    editor.handle(&mut model, Command::Transform(Choice::Upper));
    assert_eq!(model.get_content(), "HELLO  WORLD");
    assert_eq!(model.get_cursor(), 3);
    editor.handle(&mut model, Command::Transform(Choice::Lower));
    assert_eq!(model.get_content(), "hello  world");
    editor.handle(&mut model, Command::Transform(Choice::Cap));
    assert_eq!(model.get_content(), "Hello World");
    assert_eq!(model.get_cursor(), 3);
    assert_eq!(editor.selection(), "");
}

#[test]
fn push_capitalized_appends_one_word() {
    let mut out = String::new();
    editor_core::transform::push_capitalized(&mut out, true, "H", "ello");
    assert_eq!(out, "Hello");
    editor_core::transform::push_capitalized(&mut out, false, "SS", "x");
    assert_eq!(out, "Hello SSx");
    editor_core::transform::push_capitalized(&mut out, false, "", "");
    assert_eq!(out, "Hello SSx ");
}
