//! `jumprope::JumpRope`, a skip list of gap buffers, addressed in codepoints.

use crate::rope::Rope;
use crate::search::lemma_scan_single;
use crate::text::{
    cut, lemma_edited, lemma_offset_in_range, lemma_plain_offset, splice, PositionUnit,
};
use jumprope::JumpRope;
use regex::Regex;
use vstd::prelude::*;
use vstd::utf8::encode_utf8;

verus! {

#[verifier::external_type_specification]
#[verifier::external_body]
pub struct ExJumpRope(JumpRope);

/// The text that a `JumpRope` holds.
pub uninterp spec fn jump_rope_text(rope: JumpRope) -> Seq<char>;

/// `JumpRope::new`: a rope that holds no text.
#[verifier::external_body]
fn jump_rope_new() -> (rope: JumpRope)
    ensures
        jump_rope_text(rope) == Seq::<char>::empty(),
{
    JumpRope::new()
}

/// `JumpRope::insert`: puts `contents` in before the character with index
/// `pos`.
#[verifier::external_body]
fn jump_rope_insert(rope: &mut JumpRope, pos: usize, contents: &str)
    requires
        pos <= jump_rope_text(*old(rope)).len(),
    ensures
        jump_rope_text(*final(rope)) == splice(jump_rope_text(*old(rope)), pos as int, contents@),
{
    rope.insert(pos, contents)
}

/// `JumpRope::remove`: takes out the characters with indices from `start`
/// up to `end`.
#[verifier::external_body]
fn jump_rope_remove(rope: &mut JumpRope, start: usize, end: usize)
    requires
        start <= end <= jump_rope_text(*old(rope)).len(),
    ensures
        jump_rope_text(*final(rope)) == cut(jump_rope_text(*old(rope)), start as int, end as int),
{
    rope.remove(start..end)
}

/// `JumpRope::replace`: takes out the characters with indices from `start`
/// up to `end` and puts `content` in their place.
#[verifier::external_body]
fn jump_rope_replace(rope: &mut JumpRope, start: usize, end: usize, content: &str)
    requires
        start <= end <= jump_rope_text(*old(rope)).len(),
    ensures
        jump_rope_text(*final(rope)) == jump_rope_text(*old(rope)).take(start as int) + content@
            + jump_rope_text(*old(rope)).skip(end as int),
{
    rope.replace(start..end, content)
}

/// `JumpRope::to_string`: the text as a `String`.
#[verifier::external_body]
fn jump_rope_to_string(rope: &JumpRope) -> (s: String)
    ensures
        s@ == jump_rope_text(*rope),
{
    rope.to_string()
}

/// `JumpRope::len_chars`: the number of characters.
#[verifier::external_body]
fn jump_rope_len_chars(rope: &JumpRope) -> (n: usize)
    ensures
        n == jump_rope_text(*rope).len(),
{
    rope.len_chars()
}

/// `JumpRope::len_bytes`: the number of bytes of the text in UTF-8.
#[verifier::external_body]
fn jump_rope_len_bytes(rope: &JumpRope) -> (n: usize)
    ensures
        n == encode_utf8(jump_rope_text(*rope)).len(),
{
    rope.len_bytes()
}

impl Rope for JumpRope {
    const NAME: &'static str = "JumpRope";

    const EDITS_USE_BYTE_OFFSETS: bool = false;

    open spec fn text(&self) -> Seq<char> {
        jump_rope_text(*self)
    }

    fn new() -> Self {
        jump_rope_new()
    }

    fn insert_at(&mut self, pos: usize, contents: &str) {
        proof {
            lemma_offset_in_range(self.text(), PositionUnit::Codepoint, pos as int);
            lemma_plain_offset(self.text(), PositionUnit::Codepoint, pos as int);
        }
        jump_rope_insert(self, pos, contents);
    }

    fn del_at(&mut self, pos: usize, len: usize) {
        let n: usize = jump_rope_len_chars(self);
        proof {
            lemma_offset_in_range(self.text(), PositionUnit::Codepoint, pos + len);
            lemma_plain_offset(self.text(), PositionUnit::Codepoint, pos as int);
            lemma_plain_offset(self.text(), PositionUnit::Codepoint, pos + len);
        }
        jump_rope_remove(self, pos, pos + len);
    }

    fn edit_at(&mut self, pos: usize, del_len: usize, ins_content: &str) {
        let n: usize = jump_rope_len_chars(self);
        proof {
            lemma_edited(
                self.text(),
                PositionUnit::Codepoint,
                pos as int,
                del_len as int,
                ins_content@,
            );
            lemma_offset_in_range(self.text(), PositionUnit::Codepoint, pos + del_len);
            lemma_plain_offset(self.text(), PositionUnit::Codepoint, pos as int);
            lemma_plain_offset(self.text(), PositionUnit::Codepoint, pos + del_len);
        }
        jump_rope_replace(self, pos, pos + del_len, ins_content);
    }

    fn to_string(&self) -> String {
        jump_rope_to_string(self)
    }

    fn char_len(&self) -> usize {
        jump_rope_len_chars(self)
    }

    fn byte_len(&self) -> usize {
        jump_rope_len_bytes(self)
    }

    open spec fn lines(&self) -> Seq<Seq<char>> {
        seq![self.text()]
    }

    fn line_search(&self, re: &Regex) -> (offset: usize) {
        proof {
            lemma_scan_single(*re, self.text(), PositionUnit::Codepoint);
        }
        self.full_search(re)
    }
}

} // verus!
