//! The editing commands that key bindings dispatch to an editor.

use vstd::prelude::*;

verus! {

/// Delete the character before cursor
#[derive(Clone, Copy, Debug, Default, PartialEq, Eq)]
pub struct Backspace;

/// Delete from cursor to beginning of the line
#[derive(Clone, Copy, Debug, Default, PartialEq, Eq)]
pub struct DeleteToBeginningOfLine;

/// Delete the character after cursor
#[derive(Clone, Copy, Debug, Default, PartialEq, Eq)]
pub struct Delete;

/// Delete from cursor to end of the line
#[derive(Clone, Copy, Debug, Default, PartialEq, Eq)]
pub struct DeleteToEndOfLine;

/// Toggle bold formatting on selected text
#[derive(Clone, Copy, Debug, Default, PartialEq, Eq)]
pub struct ToggleBold;

/// Toggle italic formatting on selected text
#[derive(Clone, Copy, Debug, Default, PartialEq, Eq)]
pub struct ToggleItalic;

/// Toggle underline formatting on selected text
#[derive(Clone, Copy, Debug, Default, PartialEq, Eq)]
pub struct ToggleUnderline;

/// Insert newline at cursor position
#[derive(Clone, Copy, Debug, Default, PartialEq, Eq)]
pub struct Newline;

/// Move cursor up one line
#[derive(Clone, Copy, Debug, Default, PartialEq, Eq)]
pub struct MoveUp;

/// Move cursor down one line
#[derive(Clone, Copy, Debug, Default, PartialEq, Eq)]
pub struct MoveDown;

/// Move cursor left one character
#[derive(Clone, Copy, Debug, Default, PartialEq, Eq)]
pub struct MoveLeft;

/// Move cursor right one character
#[derive(Clone, Copy, Debug, Default, PartialEq, Eq)]
pub struct MoveRight;

} // verus!
