//! Text storage and inline-formatting core of a rich-text editing surface.
//!
//! The text lives in a rope and is addressed by UTF-8 byte offsets; formatting
//! is an overlay of single-attribute spans that edits keep consistent; cursor
//! movement and selection logic sit on top of both.

pub mod offsets;
pub mod lines;
mod rope;
pub mod text;
pub mod format_span;
pub mod overlay;
pub mod buffer;
pub mod selection;
pub mod movement;
pub mod editor;
pub mod render;
pub mod actions;
pub mod marked_text;

pub use actions::{
    Backspace, Delete, DeleteToBeginningOfLine, DeleteToEndOfLine, MoveDown, MoveLeft, MoveRight,
    MoveUp, Newline, ToggleBold, ToggleItalic, ToggleUnderline,
};
pub use buffer::Buffer;
pub use editor::Editor;
pub use format_span::{Attribute, FormatSpan};
pub use marked_text::{generate_marked_text, marked_text_ranges};
pub use render::StyleRun;
pub use selection::{Selection, SelectionGoal};
pub use text::{TextBuffer, TextPoint};
