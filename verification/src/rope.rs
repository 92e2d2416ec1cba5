//! What a text container has to offer to be driven by the workloads.

use crate::search::{match_offset, no_line_matches, scan_offset, search_text};
use crate::text::{
    can_delete, deleted, edited, has_offset, inserted, lemma_edited, measure, PositionUnit,
};
use regex::Regex;
use std::borrow::Cow;
use vstd::prelude::*;
use vstd::utf8::encode_utf8;

verus! {

/// A text container under benchmark.
pub trait Rope: Sized {
    /// The name of the container in results.
    const NAME: &'static str;

    /// Whether positions and lengths of edits count bytes rather than
    /// codepoints.
    const EDITS_USE_BYTE_OFFSETS: bool = false;

    /// The text that the container holds.
    spec fn text(&self) -> Seq<char>;

    /// An empty container.
    fn new() -> (rope: Self)
        ensures
            rope.text() == Seq::<char>::empty(),
    ;

    /// Inserts `contents` at offset `pos`.
    fn insert_at(&mut self, pos: usize, contents: &str)
        requires
            has_offset(old(self).text(), unit_for(Self::EDITS_USE_BYTE_OFFSETS), pos as int),
        ensures
            final(self).text() == inserted(
                old(self).text(),
                unit_for(Self::EDITS_USE_BYTE_OFFSETS),
                pos as int,
                contents@,
            ),
    ;

    /// Removes `len` units at offset `pos`.
    fn del_at(&mut self, pos: usize, len: usize)
        requires
            can_delete(old(self).text(), unit_for(Self::EDITS_USE_BYTE_OFFSETS), pos as int, len as int),
        ensures
            final(self).text() == deleted(
                old(self).text(),
                unit_for(Self::EDITS_USE_BYTE_OFFSETS),
                pos as int,
                len as int,
            ),
    ;

    /// Removes `del_len` units at offset `pos` and inserts `ins_content`
    /// there.
    fn edit_at(&mut self, pos: usize, del_len: usize, ins_content: &str)
        requires
            can_delete(old(self).text(), unit_for(Self::EDITS_USE_BYTE_OFFSETS), pos as int, del_len as int),
        ensures
            final(self).text() == edited(
                old(self).text(),
                unit_for(Self::EDITS_USE_BYTE_OFFSETS),
                pos as int,
                del_len as int,
                ins_content@,
            ),
    {
        proof {
            lemma_edited(
                self.text(),
                unit_for(Self::EDITS_USE_BYTE_OFFSETS),
                pos as int,
                del_len as int,
                ins_content@,
            );
        }
        if del_len > 0 {
            self.del_at(pos, del_len);
        }
        if !ins_content.is_empty() {
            self.insert_at(pos, ins_content);
        }
    }

    /// The whole text, copied.
    fn to_string(&self) -> (s: String)
        ensures
            s@ == self.text(),
    ;

    /// The whole text, borrowed where the container holds it in one piece.
    fn get_string(&self) -> (s: Cow<'_, str>)
        ensures
            s@ == self.text(),
    {
        Cow::Owned(self.to_string())
    }

    /// Content length in codepoints.
    fn char_len(&self) -> (n: usize)
        ensures
            n == self.text().len(),
    ;

    /// Content length in bytes of UTF-8.
    fn byte_len(&self) -> (n: usize)
        ensures
            n == encode_utf8(self.text()).len(),
    ;

    /// The pieces, line by line, in which `line_search` goes through the
    /// text.
    spec fn lines(&self) -> Seq<Seq<char>>;

    /// Where the first match of `re` within one line starts, as an offset
    /// into the text in the container's unit; the length of the text where
    /// no line holds a match.
    fn line_search(&self, re: &Regex) -> (offset: usize)
        ensures
            offset == scan_offset(*re, self.lines(), unit_for(Self::EDITS_USE_BYTE_OFFSETS)),
            offset <= measure(self.text(), unit_for(Self::EDITS_USE_BYTE_OFFSETS)),
            no_line_matches(*re, self.lines()) ==> offset == measure(
                self.text(),
                unit_for(Self::EDITS_USE_BYTE_OFFSETS),
            ),
    ;

    /// Where the first match of `re` in the whole text starts, as an offset
    /// in the container's unit; the length of the text where nothing
    /// matches.
    fn full_search(&self, re: &Regex) -> (offset: usize)
        ensures
            offset == match_offset(*re, self.text(), unit_for(Self::EDITS_USE_BYTE_OFFSETS)),
            offset <= measure(self.text(), unit_for(Self::EDITS_USE_BYTE_OFFSETS)),
    {
        let string = self.to_string();
        let unit = if Self::EDITS_USE_BYTE_OFFSETS {
            PositionUnit::Byte
        } else {
            PositionUnit::Codepoint
        };
        search_text(re, string.as_str(), unit)
    }
}

/// The unit in which `R` counts positions and lengths of edits.
pub fn edit_unit<R: Rope>() -> (unit: PositionUnit)
    ensures
        unit == unit_of::<R>(),
{
    if R::EDITS_USE_BYTE_OFFSETS {
        PositionUnit::Byte
    } else {
        PositionUnit::Codepoint
    }
}

/// The unit of a container that counts bytes, or of one that does not.
pub open spec fn unit_for(byte_offsets: bool) -> PositionUnit {
    if byte_offsets {
        PositionUnit::Byte
    } else {
        PositionUnit::Codepoint
    }
}

/// The unit in which `R` counts positions and lengths of edits.
pub open spec fn unit_of<R: Rope>() -> PositionUnit {
    unit_for(R::EDITS_USE_BYTE_OFFSETS)
}

} // verus!
