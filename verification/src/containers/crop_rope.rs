//! `crop::Rope`, a B-tree rope, addressed in bytes.

use crate::rope::Rope;
use crate::search::{
    lemma_lines_measure, lemma_scan_without_match, no_line_matches, search_lines,
};
use crate::text::{can_delete, deleted, has_offset, inserted, lemma_offset_in_range, PositionUnit};
use regex::Regex;
use vstd::prelude::*;
use vstd::utf8::encode_utf8;

verus! {

/// A rope of the `crop` crate.
#[verifier::external_body]
pub struct CropRope {
    inner: crop::Rope,
}

/// The text that the rope holds.
pub uninterp spec fn crop_text(rope: CropRope) -> Seq<char>;

/// The lines into which crop divides `text`, each with the line terminator
/// that ends it; a terminator at the very end starts no further line.
pub uninterp spec fn crop_raw_lines(text: Seq<char>) -> Seq<Seq<char>>;

/// `Rope::new`: a rope that holds no text.
#[verifier::external_body]
fn crop_new() -> (rope: CropRope)
    ensures
        crop_text(rope) == Seq::<char>::empty(),
{
    CropRope { inner: crop::Rope::new() }
}

/// `Rope::insert`: puts `contents` in at byte offset `pos`. It panics where
/// `pos` is beyond the end or inside a character.
#[verifier::external_body]
fn crop_insert(rope: &mut CropRope, pos: usize, contents: &str)
    requires
        has_offset(crop_text(*old(rope)), PositionUnit::Byte, pos as int),
    ensures
        crop_text(*final(rope)) == inserted(
            crop_text(*old(rope)),
            PositionUnit::Byte,
            pos as int,
            contents@,
        ),
{
    rope.inner.insert(pos, contents)
}

/// `Rope::delete`: takes out the bytes from offset `start` up to `end`. It
/// panics where the range is reversed, ends beyond the end, or starts or
/// ends inside a character.
#[verifier::external_body]
fn crop_delete(rope: &mut CropRope, start: usize, end: usize)
    requires
        can_delete(crop_text(*old(rope)), PositionUnit::Byte, start as int, end - start),
    ensures
        crop_text(*final(rope)) == deleted(
            crop_text(*old(rope)),
            PositionUnit::Byte,
            start as int,
            end - start,
        ),
{
    rope.inner.delete(start..end)
}

/// `Rope`'s `Display`: the text as a `String`.
#[verifier::external_body]
fn crop_to_string(rope: &CropRope) -> (s: String)
    ensures
        s@ == crop_text(*rope),
{
    rope.inner.to_string()
}

/// `Rope::chars`, counted: the number of characters.
#[verifier::external_body]
fn crop_char_count(rope: &CropRope) -> (n: usize)
    ensures
        n == crop_text(*rope).len(),
{
    rope.inner.chars().count()
}

/// `Rope::byte_len`: the number of bytes of the text in UTF-8.
#[verifier::external_body]
fn crop_byte_len(rope: &CropRope) -> (n: usize)
    ensures
        n == encode_utf8(crop_text(*rope)).len(),
{
    rope.inner.byte_len()
}

/// `Rope::raw_lines`: the lines of the text in order, terminators
/// included, each as a `String`. They make up the text.
#[verifier::external_body]
fn crop_line_strings(rope: &CropRope) -> (lines: Vec<String>)
    ensures
        lines.deep_view() == crop_raw_lines(crop_text(*rope)),
        lines.deep_view().flatten() == crop_text(*rope),
{
    let mut lines = Vec::new();
    for line in rope.inner.raw_lines() {
        lines.push(line.to_string());
    }
    lines
}

impl Rope for CropRope {
    const NAME: &'static str = "Crop";

    const EDITS_USE_BYTE_OFFSETS: bool = true;

    open spec fn text(&self) -> Seq<char> {
        crop_text(*self)
    }

    fn new() -> Self {
        crop_new()
    }

    fn insert_at(&mut self, pos: usize, contents: &str) {
        crop_insert(self, pos, contents);
    }

    fn del_at(&mut self, pos: usize, len: usize) {
        let n: usize = crop_byte_len(self);
        proof {
            lemma_offset_in_range(self.text(), PositionUnit::Byte, pos + len);
        }
        crop_delete(self, pos, pos + len);
    }

    fn to_string(&self) -> String {
        crop_to_string(self)
    }

    fn char_len(&self) -> usize {
        crop_char_count(self)
    }

    fn byte_len(&self) -> usize {
        crop_byte_len(self)
    }

    open spec fn lines(&self) -> Seq<Seq<char>> {
        crop_raw_lines(self.text())
    }

    fn line_search(&self, re: &Regex) -> (offset: usize) {
        let n: usize = crop_byte_len(self);
        let lines = crop_line_strings(self);
        proof {
            lemma_lines_measure(lines.deep_view(), PositionUnit::Byte);
            if no_line_matches(*re, lines.deep_view()) {
                lemma_scan_without_match(*re, lines.deep_view(), PositionUnit::Byte);
            }
        }
        search_lines(re, &lines, PositionUnit::Byte)
    }
}

} // verus!
