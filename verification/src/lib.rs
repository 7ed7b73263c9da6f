//! Cursor navigation, inline-marker selection and case transformation for a
//! UTF-8 text buffer addressed by byte offsets.

pub mod command;
pub mod markers;
pub mod navigator;
pub mod offsets;
pub mod segments;
pub mod selection;
pub mod text_model;
pub mod tracking;
pub mod transform;
