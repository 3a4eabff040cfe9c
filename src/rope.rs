//! The rope that stores the text, from the `ropey` crate, and the calls the
//! library makes into it. Ropey indexes by char; it is built here without its
//! optional line-break kinds, so only a line feed ends a line.

use vstd::prelude::*;
use ropey::Rope;
use crate::lines::{lf_count, line_count, line_start_byte, row_of_byte};
use crate::offsets::{byte_len, byte_offset, char_at_byte, char_at_utf16, utf16_len, utf16_offset};

verus! {

#[verifier::external_type_specification]
#[verifier::external_body]
pub struct ExRope(Rope);

/// The chars that a rope holds.
pub uninterp spec fn rope_chars(r: Rope) -> Seq<char>;

/// Relies on `Rope`'s derived `Clone`: the copy holds the same text.
pub assume_specification[ <Rope as Clone>::clone ](rope: &Rope) -> (r: Rope)
    ensures
        rope_chars(r) == rope_chars(*rope),
;

/// Relies on `Rope::new`: a rope with no text.
#[verifier::external_body]
pub(crate) fn rope_new() -> (r: Rope)
    ensures
        rope_chars(r) == Seq::<char>::empty(),
{
    Rope::new()
}

/// Relies on `Rope::from_str`: a rope holding exactly the chars of `text`.
#[verifier::external_body]
pub(crate) fn rope_from_str(text: &str) -> (r: Rope)
    ensures
        rope_chars(r) == text@,
{
    Rope::from_str(text)
}

/// Relies on `Rope::len_bytes`: the length of the text in UTF-8 bytes.
#[verifier::external_body]
pub(crate) fn rope_len_bytes(rope: &Rope) -> (n: usize)
    ensures
        n == byte_len(rope_chars(*rope)),
{
    rope.len_bytes()
}

/// Relies on `Rope::len_chars`: the number of chars.
#[verifier::external_body]
pub(crate) fn rope_len_chars(rope: &Rope) -> (n: usize)
    ensures
        n == rope_chars(*rope).len(),
{
    rope.len_chars()
}

/// Relies on `Rope::len_lines`: one more than the number of line feeds.
#[verifier::external_body]
pub(crate) fn rope_len_lines(rope: &Rope) -> (n: usize)
    ensures
        n == line_count(rope_chars(*rope)),
{
    rope.len_lines()
}

/// Relies on `Rope::byte_to_char`: the index of the char that holds the byte,
/// or the char count at the end.
#[verifier::external_body]
pub(crate) fn rope_byte_to_char(rope: &Rope, byte_idx: usize) -> (n: usize)
    requires
        byte_idx <= byte_len(rope_chars(*rope)),
    ensures
        n == char_at_byte(rope_chars(*rope), byte_idx as int),
{
    rope.byte_to_char(byte_idx)
}

/// Relies on `Rope::char_to_byte`: the byte offset at which the char starts.
#[verifier::external_body]
pub(crate) fn rope_char_to_byte(rope: &Rope, char_idx: usize) -> (n: usize)
    requires
        char_idx <= rope_chars(*rope).len(),
    ensures
        n == byte_offset(rope_chars(*rope), char_idx as int),
{
    rope.char_to_byte(char_idx)
}

/// Relies on `Rope::char_to_utf16_cu`: the UTF-16 offset at which the char starts.
#[verifier::external_body]
pub(crate) fn rope_char_to_utf16_cu(rope: &Rope, char_idx: usize) -> (n: usize)
    requires
        char_idx <= rope_chars(*rope).len(),
    ensures
        n == utf16_offset(rope_chars(*rope), char_idx as int),
{
    rope.char_to_utf16_cu(char_idx)
}

/// Relies on `Rope::utf16_cu_to_char`: the index of the char that holds the
/// UTF-16 code unit, or the char count at the end.
#[verifier::external_body]
pub(crate) fn rope_utf16_cu_to_char(rope: &Rope, utf16_idx: usize) -> (n: usize)
    requires
        utf16_idx <= utf16_len(rope_chars(*rope)),
    ensures
        n == char_at_utf16(rope_chars(*rope), utf16_idx as int),
{
    rope.utf16_cu_to_char(utf16_idx)
}

/// Relies on `Rope::byte_to_line`: the number of line feeds before the byte.
#[verifier::external_body]
pub(crate) fn rope_byte_to_line(rope: &Rope, byte_idx: usize) -> (n: usize)
    requires
        byte_idx <= byte_len(rope_chars(*rope)),
    ensures
        n == row_of_byte(rope_chars(*rope), byte_idx as int),
{
    rope.byte_to_line(byte_idx)
}

/// Relies on `Rope::line_to_byte`: the byte offset just after the line's
/// preceding line feed; the text's length for the line past the last.
#[verifier::external_body]
pub(crate) fn rope_line_to_byte(rope: &Rope, line_idx: usize) -> (n: usize)
    requires
        line_idx <= lf_count(rope_chars(*rope)) + 1,
    ensures
        n == line_start_byte(rope_chars(*rope), line_idx as nat),
{
    rope.line_to_byte(line_idx)
}

/// Relies on `Rope::char`: the char at the index.
#[verifier::external_body]
pub(crate) fn rope_char(rope: &Rope, char_idx: usize) -> (c: char)
    requires
        char_idx < rope_chars(*rope).len(),
    ensures
        c == rope_chars(*rope)[char_idx as int],
{
    rope.char(char_idx)
}

/// Relies on `Rope::insert`: the text goes in before the char at the index.
#[verifier::external_body]
pub(crate) fn rope_insert(rope: &mut Rope, char_idx: usize, text: &str)
    requires
        char_idx <= rope_chars(*old(rope)).len(),
    ensures
        rope_chars(*final(rope)) == rope_chars(*old(rope)).take(char_idx as int) + text@
            + rope_chars(*old(rope)).skip(char_idx as int),
{
    rope.insert(char_idx, text)
}

/// Relies on `Rope::remove`: the chars of the index range go.
#[verifier::external_body]
pub(crate) fn rope_remove(rope: &mut Rope, start: usize, end: usize)
    requires
        start <= end <= rope_chars(*old(rope)).len(),
    ensures
        rope_chars(*final(rope)) == rope_chars(*old(rope)).take(start as int) + rope_chars(
            *old(rope),
        ).skip(end as int),
{
    rope.remove(start..end)
}

/// Relies on `Rope::slice`, turned into a `String`: the chars of the index range.
#[verifier::external_body]
pub(crate) fn rope_slice(rope: &Rope, start: usize, end: usize) -> (s: String)
    requires
        start <= end <= rope_chars(*rope).len(),
    ensures
        s@ == rope_chars(*rope).subrange(start as int, end as int),
{
    rope.slice(start..end).to_string()
}

} // verus!
