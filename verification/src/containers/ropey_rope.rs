//! `ropey::Rope`, a B-tree rope, addressed in codepoints.

use crate::rope::Rope;
use crate::search::{
    lemma_lines_measure, lemma_scan_without_match, no_line_matches, search_lines,
};
use crate::text::{
    cut, lemma_offset_in_range, lemma_plain_offset, splice, PositionUnit,
};
use regex::Regex;
use vstd::prelude::*;
use vstd::utf8::encode_utf8;

verus! {

/// A rope of the `ropey` crate.
#[verifier::external_body]
pub struct RopeyRope {
    inner: ropey::Rope,
}

/// The text that the rope holds.
pub uninterp spec fn ropey_text(rope: RopeyRope) -> Seq<char>;

/// The lines into which ropey divides `text`: each ends behind a line
/// break, which belongs to it, and the last one is what follows the last
/// line break, empty or not.
pub uninterp spec fn ropey_lines(text: Seq<char>) -> Seq<Seq<char>>;

/// `Rope::new`: a rope that holds no text.
#[verifier::external_body]
fn ropey_new() -> (rope: RopeyRope)
    ensures
        ropey_text(rope) == Seq::<char>::empty(),
{
    RopeyRope { inner: ropey::Rope::new() }
}

/// `Rope::insert`: puts `contents` in before the character with index
/// `pos`. It panics where `pos` is beyond the end.
#[verifier::external_body]
fn ropey_insert(rope: &mut RopeyRope, pos: usize, contents: &str)
    requires
        pos <= ropey_text(*old(rope)).len(),
    ensures
        ropey_text(*final(rope)) == splice(ropey_text(*old(rope)), pos as int, contents@),
{
    rope.inner.insert(pos, contents)
}

/// `Rope::remove`: takes out the characters with indices from `start` up
/// to `end`. It panics where the range is reversed or ends beyond the end.
#[verifier::external_body]
fn ropey_remove(rope: &mut RopeyRope, start: usize, end: usize)
    requires
        start <= end <= ropey_text(*old(rope)).len(),
    ensures
        ropey_text(*final(rope)) == cut(ropey_text(*old(rope)), start as int, end as int),
{
    rope.inner.remove(start..end)
}

/// `Rope::chunks`, collected: the text as a `String`.
#[verifier::external_body]
fn ropey_to_string(rope: &RopeyRope) -> (s: String)
    ensures
        s@ == ropey_text(*rope),
{
    rope.inner.chunks().collect()
}

/// `Rope::len_chars`: the number of characters.
#[verifier::external_body]
fn ropey_len_chars(rope: &RopeyRope) -> (n: usize)
    ensures
        n == ropey_text(*rope).len(),
{
    rope.inner.len_chars()
}

/// `Rope::len_bytes`: the number of bytes of the text in UTF-8.
#[verifier::external_body]
fn ropey_len_bytes(rope: &RopeyRope) -> (n: usize)
    ensures
        n == encode_utf8(ropey_text(*rope)).len(),
{
    rope.inner.len_bytes()
}

/// `Rope::lines`: the lines of the text in order, each as a `String`. They
/// make up the text: every line break belongs to the line that it ends.
#[verifier::external_body]
fn ropey_line_strings(rope: &RopeyRope) -> (lines: Vec<String>)
    ensures
        lines.deep_view() == ropey_lines(ropey_text(*rope)),
        lines.deep_view().flatten() == ropey_text(*rope),
{
    let mut lines = Vec::new();
    for line in rope.inner.lines() {
        lines.push(String::from(line));
    }
    lines
}

#[verifier::external_type_specification]
#[verifier::external_body]
pub struct ExCursorRegex(regex_cursor::engines::meta::Regex);

/// The byte offset at which the leftmost match of `re` in `text` starts,
/// if there is a match, as a search through a cursor over chunks of the
/// text finds it.
pub uninterp spec fn cursor_find_start(
    re: regex_cursor::engines::meta::Regex,
    text: Seq<char>,
) -> Option<usize>;

/// `Regex::find` of `regex_cursor` on a `RopeyCursor` over the whole rope,
/// and `Match::start`: the byte offset of the start of the leftmost match,
/// or `None` where nothing matches. It is a function of pattern and text.
#[verifier::external_body]
fn ropey_cursor_find(rope: &RopeyRope, re: &regex_cursor::engines::meta::Regex) -> (start: Option<
    usize,
>)
    ensures
        start == cursor_find_start(*re, ropey_text(*rope)),
{
    let input = regex_cursor::Input::new(regex_cursor::RopeyCursor::new(rope.inner.slice(..)));
    match re.find(input) {
        Some(found) => Some(found.start()),
        None => None,
    }
}

impl RopeyRope {
    /// Searches the rope chunk by chunk, without copying it: the byte
    /// offset at which the first match of `re` starts, or the length of
    /// the text in bytes where nothing matches.
    pub fn line_search_cursor(&self, re: &regex_cursor::engines::meta::Regex) -> (offset: usize)
        ensures
            offset == match cursor_find_start(*re, self.text()) {
                Some(at) => at as nat,
                None => encode_utf8(self.text()).len(),
            },
    {
        match ropey_cursor_find(self, re) {
            Some(at) => at,
            None => ropey_len_bytes(self),
        }
    }
}

impl Rope for RopeyRope {
    const NAME: &'static str = "Ropey";

    const EDITS_USE_BYTE_OFFSETS: bool = false;

    open spec fn text(&self) -> Seq<char> {
        ropey_text(*self)
    }

    fn new() -> Self {
        ropey_new()
    }

    fn insert_at(&mut self, pos: usize, contents: &str) {
        proof {
            lemma_offset_in_range(self.text(), PositionUnit::Codepoint, pos as int);
            lemma_plain_offset(self.text(), PositionUnit::Codepoint, pos as int);
        }
        ropey_insert(self, pos, contents);
    }

    fn del_at(&mut self, pos: usize, len: usize) {
        let n: usize = ropey_len_chars(self);
        proof {
            lemma_offset_in_range(self.text(), PositionUnit::Codepoint, pos + len);
            lemma_plain_offset(self.text(), PositionUnit::Codepoint, pos as int);
            lemma_plain_offset(self.text(), PositionUnit::Codepoint, pos + len);
        }
        ropey_remove(self, pos, pos + len);
    }

    fn to_string(&self) -> String {
        ropey_to_string(self)
    }

    fn char_len(&self) -> usize {
        ropey_len_chars(self)
    }

    fn byte_len(&self) -> usize {
        ropey_len_bytes(self)
    }

    open spec fn lines(&self) -> Seq<Seq<char>> {
        ropey_lines(self.text())
    }

    fn line_search(&self, re: &Regex) -> (offset: usize) {
        let n: usize = ropey_len_chars(self);
        let lines = ropey_line_strings(self);
        proof {
            lemma_lines_measure(lines.deep_view(), PositionUnit::Codepoint);
            if no_line_matches(*re, lines.deep_view()) {
                lemma_scan_without_match(*re, lines.deep_view(), PositionUnit::Codepoint);
            }
        }
        search_lines(re, &lines, PositionUnit::Codepoint)
    }
}

} // verus!
