//! A text held in one `String`: the plainest container that keeps the
//! contract, in either unit.

use crate::rope::{unit_for, Rope};
use crate::search::{lemma_scan_single, search_text};
use crate::text::{
    apply_edit, deleted, edited, lemma_edited, lemma_offset_in_range, measure_of, PositionUnit,
};
use regex::Regex;
use std::borrow::Cow;
use vstd::prelude::*;
use vstd::string::*;

verus! {

/// A text in one piece, addressed in bytes where `BYTE_OFFSETS` is set and
/// in codepoints otherwise. Every edit copies the text.
pub struct PlainText<const BYTE_OFFSETS: bool> {
    pub text: String,
}

impl<const BYTE_OFFSETS: bool> PlainText<BYTE_OFFSETS> {
    /// The unit of the container.
    pub fn unit() -> (unit: PositionUnit)
        ensures
            unit == unit_for(BYTE_OFFSETS),
    {
        if BYTE_OFFSETS {
            PositionUnit::Byte
        } else {
            PositionUnit::Codepoint
        }
    }
}

impl<const BYTE_OFFSETS: bool> Rope for PlainText<BYTE_OFFSETS> {
    const NAME: &'static str = "PlainText";

    const EDITS_USE_BYTE_OFFSETS: bool = BYTE_OFFSETS;

    open spec fn text(&self) -> Seq<char> {
        self.text@
    }

    fn new() -> Self {
        PlainText { text: String::new() }
    }

    fn insert_at(&mut self, pos: usize, contents: &str) {
        proof {
            let unit = unit_for(BYTE_OFFSETS);
            lemma_offset_in_range(self.text(), unit, pos as int);
            assert(deleted(self.text(), unit, pos as int, 0) =~= self.text());
        }
        self.edit_at(pos, 0, contents);
    }

    fn del_at(&mut self, pos: usize, len: usize) {
        proof {
            let unit = unit_for(BYTE_OFFSETS);
            reveal_strlit("");
            lemma_edited(self.text(), unit, pos as int, len as int, Seq::empty());
            lemma_offset_in_range(self.text(), unit, pos as int);
            lemma_offset_in_range(self.text(), unit, pos + len);
            assert(""@ =~= Seq::<char>::empty());
            assert(edited(self.text(), unit, pos as int, len as int, Seq::empty()) =~= deleted(
                self.text(),
                unit,
                pos as int,
                len as int,
            ));
        }
        self.edit_at(pos, len, "");
    }

    fn edit_at(&mut self, pos: usize, del_len: usize, ins_content: &str) {
        if let Some(text) = apply_edit(self.text.as_str(), Self::unit(), pos, del_len, ins_content) {
            self.text = text;
        }
    }

    fn to_string(&self) -> String {
        self.text.clone()
    }

    fn get_string(&self) -> Cow<'_, str> {
        Cow::Borrowed(self.text.as_str())
    }

    fn char_len(&self) -> usize {
        self.text.as_str().unicode_len()
    }

    fn byte_len(&self) -> usize {
        measure_of(self.text.as_str(), PositionUnit::Byte)
    }

    open spec fn lines(&self) -> Seq<Seq<char>> {
        seq![self.text()]
    }

    fn line_search(&self, re: &Regex) -> (offset: usize) {
        proof {
            lemma_scan_single(*re, self.text(), unit_for(BYTE_OFFSETS));
        }
        search_text(re, self.text.as_str(), Self::unit())
    }
}

} // verus!
