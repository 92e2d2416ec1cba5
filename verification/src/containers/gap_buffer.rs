//! `text_buffer::Buffer`, a gap buffer, addressed in codepoints.

use crate::rope::Rope;
use crate::search::{lemma_scan_single, search_text};
use crate::text::{cut, lemma_offset_in_range, lemma_plain_offset, splice, PositionUnit};
use regex::Regex;
use std::borrow::Cow;
use text_buffer::Buffer;
use vstd::prelude::*;
use vstd::utf8::encode_utf8;

verus! {

#[verifier::external_type_specification]
#[verifier::external_body]
pub struct ExBuffer(Buffer);

/// The text that a `Buffer` holds.
pub uninterp spec fn buffer_text(buffer: Buffer) -> Seq<char>;

/// The index of the character before which a `Buffer` inserts.
pub uninterp spec fn buffer_cursor(buffer: Buffer) -> nat;

/// `Buffer::new`: a buffer that holds no text.
#[verifier::external_body]
fn buffer_new() -> (buffer: Buffer)
    ensures
        buffer_text(buffer) == Seq::<char>::empty(),
{
    Buffer::new()
}

/// `Buffer::set_cursor`: moves the cursor before the character with index
/// `pos` and leaves the text as it is.
#[verifier::external_body]
fn buffer_set_cursor(buffer: &mut Buffer, pos: usize)
    requires
        pos <= buffer_text(*old(buffer)).len(),
    ensures
        buffer_text(*final(buffer)) == buffer_text(*old(buffer)),
        buffer_cursor(*final(buffer)) == pos,
{
    buffer.set_cursor(pos)
}

/// `Buffer::insert`: puts `contents` in at the cursor.
#[verifier::external_body]
fn buffer_insert(buffer: &mut Buffer, contents: &str)
    requires
        buffer_cursor(*old(buffer)) <= buffer_text(*old(buffer)).len(),
    ensures
        buffer_text(*final(buffer)) == splice(
            buffer_text(*old(buffer)),
            buffer_cursor(*old(buffer)) as int,
            contents@,
        ),
{
    buffer.insert(contents)
}

/// `Buffer::delete_range`: takes out the characters with indices from
/// `start` up to `end`.
#[verifier::external_body]
fn buffer_delete_range(buffer: &mut Buffer, start: usize, end: usize)
    requires
        start <= end <= buffer_text(*old(buffer)).len(),
    ensures
        buffer_text(*final(buffer)) == cut(buffer_text(*old(buffer)), start as int, end as int),
{
    buffer.delete_range(start, end)
}

/// `Buffer::read` of the bytes from `start` up to `end`, for the range of
/// the whole text: the text, borrowed where it lies in one piece.
#[verifier::external_body]
fn buffer_read(buffer: &Buffer, start: usize, end: usize) -> (s: Cow<'_, str>)
    requires
        start == 0,
        end == encode_utf8(buffer_text(*buffer)).len(),
    ensures
        s@ == buffer_text(*buffer),
{
    buffer.read(start..end)
}

/// `Buffer::len_chars`: the number of characters.
#[verifier::external_body]
fn buffer_len_chars(buffer: &Buffer) -> (n: usize)
    ensures
        n == buffer_text(*buffer).len(),
{
    buffer.len_chars()
}

/// `Buffer::len`: the number of bytes of the text in UTF-8.
#[verifier::external_body]
fn buffer_len(buffer: &Buffer) -> (n: usize)
    ensures
        n == encode_utf8(buffer_text(*buffer)).len(),
{
    buffer.len()
}

impl Rope for Buffer {
    const NAME: &'static str = "Buffer";

    const EDITS_USE_BYTE_OFFSETS: bool = false;

    open spec fn text(&self) -> Seq<char> {
        buffer_text(*self)
    }

    fn new() -> Self {
        buffer_new()
    }

    fn insert_at(&mut self, pos: usize, contents: &str) {
        proof {
            lemma_offset_in_range(self.text(), PositionUnit::Codepoint, pos as int);
            lemma_plain_offset(self.text(), PositionUnit::Codepoint, pos as int);
        }
        buffer_set_cursor(self, pos);
        buffer_insert(self, contents);
    }

    fn del_at(&mut self, pos: usize, len: usize) {
        let n: usize = buffer_len_chars(self);
        proof {
            lemma_offset_in_range(self.text(), PositionUnit::Codepoint, pos + len);
            lemma_plain_offset(self.text(), PositionUnit::Codepoint, pos as int);
            lemma_plain_offset(self.text(), PositionUnit::Codepoint, pos + len);
        }
        buffer_delete_range(self, pos, pos + len);
    }

    fn to_string(&self) -> String {
        match self.get_string() {
            Cow::Borrowed(text) => text.to_owned(),
            Cow::Owned(text) => text,
        }
    }

    fn get_string(&self) -> Cow<'_, str> {
        buffer_read(self, 0, buffer_len(self))
    }

    fn char_len(&self) -> usize {
        buffer_len_chars(self)
    }

    fn byte_len(&self) -> usize {
        buffer_len(self)
    }

    open spec fn lines(&self) -> Seq<Seq<char>> {
        seq![self.text()]
    }

    fn line_search(&self, re: &Regex) -> (offset: usize) {
        proof {
            lemma_scan_single(*re, self.text(), PositionUnit::Codepoint);
        }
        match self.get_string() {
            Cow::Borrowed(text) => search_text(re, text, PositionUnit::Codepoint),
            Cow::Owned(text) => search_text(re, text.as_str(), PositionUnit::Codepoint),
        }
    }

    fn full_search(&self, re: &Regex) -> (offset: usize) {
        proof {
            lemma_scan_single(*re, self.text(), PositionUnit::Codepoint);
        }
        self.line_search(re)
    }
}

} // verus!
