//! Trusted boundary around the rope that stores the text.
//!
//! The rope is built with line breaks recognized on `'\n'` alone (the crate's
//! default extra line-break handling is switched off), so its line counting
//! and line indexing coincide with the `text` module's model: `len_lines` is
//! the number of terminators plus one, and line `i` begins one past the
//! `i`-th terminator.  Every contract below is stated over `rope_text`, the
//! sequence of characters the rope holds.

use vstd::prelude::*;
use crate::text::line_start;
use crate::text::newline_count;

verus! {

#[verifier::external_type_specification]
#[verifier::external_body]
pub struct ExRope(ropey::Rope);

/// The characters a rope holds, in order.
pub uninterp spec fn rope_text(r: ropey::Rope) -> Seq<char>;

/// Relies on ropey::Rope::new: an empty rope holds no characters.
#[verifier::external_body]
pub(crate) fn rope_new() -> (r: ropey::Rope)
    ensures
        rope_text(r) == Seq::<char>::empty(),
{
    ropey::Rope::new()
}

/// Relies on ropey::Rope::from_str: the rope holds exactly the given text.
#[verifier::external_body]
pub(crate) fn rope_from_str(text: &str) -> (r: ropey::Rope)
    ensures
        rope_text(r) == text@,
{
    ropey::Rope::from_str(text)
}

/// Relies on String::from(&ropey::Rope): the whole text, unchanged.
#[verifier::external_body]
pub(crate) fn rope_to_string(r: &ropey::Rope) -> (out: String)
    ensures
        out@ == rope_text(*r),
{
    String::from(r)
}

/// Relies on ropey::Rope::len_chars: the number of characters held.
#[verifier::external_body]
pub(crate) fn rope_len_chars(r: &ropey::Rope) -> (n: usize)
    ensures
        n == rope_text(*r).len(),
{
    r.len_chars()
}

/// Relies on ropey::Rope::len_lines: one more than the number of line breaks,
/// which in this build are exactly the `'\n'` characters.
#[verifier::external_body]
pub(crate) fn rope_len_lines(r: &ropey::Rope) -> (n: usize)
    ensures
        n == newline_count(rope_text(*r)) + 1,
{
    r.len_lines()
}

/// Relies on ropey::Rope::line_to_char: the character index where the given
/// line begins; one past the last line is accepted and gives the text length.
#[verifier::external_body]
pub(crate) fn rope_line_to_char(r: &ropey::Rope, line: usize) -> (at: usize)
    requires
        line <= newline_count(rope_text(*r)) + 1,
    ensures
        at == line_start(rope_text(*r), line as int),
{
    r.line_to_char(line)
}

/// Relies on ropey::Rope::char: the character at the given index.
#[verifier::external_body]
pub(crate) fn rope_char_at(r: &ropey::Rope, at: usize) -> (c: char)
    requires
        at < rope_text(*r).len(),
    ensures
        c == rope_text(*r)[at as int],
{
    r.char(at)
}

/// Relies on ropey::Rope::insert_char: the character appears at the given
/// index and everything after it moves right by one.
#[verifier::external_body]
pub(crate) fn rope_insert_char(r: &mut ropey::Rope, at: usize, c: char)
    requires
        at <= rope_text(*old(r)).len(),
    ensures
        rope_text(*final(r)) == rope_text(*old(r)).insert(at as int, c),
{
    r.insert_char(at, c)
}

/// Relies on ropey::Rope::remove: the character at the given index goes away
/// and everything after it moves left by one.
#[verifier::external_body]
pub(crate) fn rope_remove_char(r: &mut ropey::Rope, at: usize)
    requires
        at < rope_text(*old(r)).len(),
    ensures
        rope_text(*final(r)) == rope_text(*old(r)).remove(at as int),
{
    r.remove(at..at + 1)
}

/// Relies on ropey::Rope::slice and String::from(ropey::RopeSlice): the
/// characters of the given range, unchanged.
#[verifier::external_body]
pub(crate) fn rope_slice_string(r: &ropey::Rope, from: usize, to: usize) -> (out: String)
    requires
        from <= to <= rope_text(*r).len(),
    ensures
        out@ == rope_text(*r).subrange(from as int, to as int),
{
    String::from(r.slice(from..to))
}

} // verus!
