//! Searching a text for a pattern, as a whole or line by line, and the
//! offset at which the first match starts.

use crate::text::{
    index_at, lemma_byte_split, lemma_measure_concat, lemma_offset_in_range, measure, measure_of,
    PositionUnit,
};
use regex::Regex;
use vstd::prelude::*;
use vstd::string::*;
use vstd::utf8::{encode_utf8, is_char_boundary};

verus! {

#[verifier::external_type_specification]
#[verifier::external_body]
pub struct ExRegex(Regex);

/// The byte offset at which the leftmost match of `re` in `haystack` starts,
/// if there is a match.
pub uninterp spec fn regex_find_start(re: Regex, haystack: Seq<char>) -> Option<usize>;

/// `Regex::find` and `Match::start`: the byte offset of the start of the
/// leftmost match in `haystack`, or `None` where nothing matches. It is a
/// function of pattern and haystack, and it falls on a character boundary
/// of the haystack.
#[verifier::external_body]
pub(crate) fn find_start(re: &Regex, haystack: &str) -> (start: Option<usize>)
    ensures
        start == regex_find_start(*re, haystack@),
        start matches Some(at) ==> is_char_boundary(encode_utf8(haystack@), at as int),
{
    match re.find(haystack) {
        Some(found) => Some(found.start()),
        None => None,
    }
}

/// The offset, in `unit`, of the character of `text` whose encoding starts
/// at byte `at`.
pub open spec fn unit_offset(text: Seq<char>, at: int, unit: PositionUnit) -> nat {
    measure(text.take(index_at(text, PositionUnit::Byte, at)), unit)
}

/// Where the first match of `re` in `text` starts, in `unit`; the length of
/// `text` where nothing matches.
pub open spec fn match_offset(re: Regex, text: Seq<char>, unit: PositionUnit) -> nat {
    match regex_find_start(re, text) {
        Some(at) => unit_offset(text, at as int, unit),
        None => measure(text, unit),
    }
}

/// Where the first match of `re` within one of `lines` starts, counted
/// from the start of the first line in `unit`; the length of all lines
/// together where no line holds a match.
pub open spec fn scan_offset(re: Regex, lines: Seq<Seq<char>>, unit: PositionUnit) -> nat
    decreases lines.len(),
{
    if lines.len() == 0 {
        0
    } else {
        match regex_find_start(re, lines[0]) {
            Some(at) => unit_offset(lines[0], at as int, unit),
            None => measure(lines[0], unit) + scan_offset(re, lines.drop_first(), unit),
        }
    }
}

/// The offset in `unit` of byte offset `at` of `text`, which has to lie on
/// a character boundary.
pub fn offset_of_byte(text: &str, at: usize, unit: PositionUnit) -> (offset: usize)
    requires
        is_char_boundary(encode_utf8(text@), at as int),
    ensures
        offset == unit_offset(text@, at as int, unit),
        offset <= measure(text@, unit),
{
    let n: usize = text.as_bytes().len();
    proof {
        vstd::utf8::encode_utf8_valid_utf8(text@);
        if at > n {
            reveal_with_fuel(is_char_boundary, 1);
        }
    }
    let (head, tail) = text.split_at(at);
    proof {
        lemma_byte_split(text@, at as int, head@, tail@);
        lemma_offset_in_range(text@, PositionUnit::Byte, at as int);
        assert(text@ =~= head@ + tail@);
        lemma_measure_concat(head@, tail@, unit);
    }
    measure_of(head, unit)
}

/// Searches the whole of `text`: where the first match of `re` starts, in
/// `unit`, or the length of `text` where nothing matches.
pub fn search_text(re: &Regex, text: &str, unit: PositionUnit) -> (offset: usize)
    ensures
        offset == match_offset(*re, text@, unit),
        offset <= measure(text@, unit),
{
    match find_start(re, text) {
        Some(at) => offset_of_byte(text, at, unit),
        None => measure_of(text, unit),
    }
}

/// The length of all of `lines` together.
pub open spec fn lines_measure(lines: Seq<Seq<char>>, unit: PositionUnit) -> nat
    decreases lines.len(),
{
    if lines.len() == 0 {
        0
    } else {
        measure(lines[0], unit) + lines_measure(lines.drop_first(), unit)
    }
}

/// Lines are together as long as the text that they make up.
pub proof fn lemma_lines_measure(lines: Seq<Seq<char>>, unit: PositionUnit)
    ensures
        lines_measure(lines, unit) == measure(lines.flatten(), unit),
    decreases lines.len(),
{
    if lines.len() > 0 {
        lemma_lines_measure(lines.drop_first(), unit);
        lemma_measure_concat(lines[0], lines.drop_first().flatten(), unit);
    }
}

/// No line of `lines` holds a match of `re`.
pub open spec fn no_line_matches(re: Regex, lines: Seq<Seq<char>>) -> bool {
    forall|i: int| 0 <= i < lines.len() ==> regex_find_start(re, #[trigger] lines[i]) is None
}

/// Where no line holds a match, the search ends behind the last line.
pub proof fn lemma_scan_without_match(re: Regex, lines: Seq<Seq<char>>, unit: PositionUnit)
    requires
        no_line_matches(re, lines),
    ensures
        scan_offset(re, lines, unit) == lines_measure(lines, unit),
    decreases lines.len(),
{
    if lines.len() > 0 {
        assert(regex_find_start(re, lines[0]) is None);
        assert forall|i: int| 0 <= i < lines.drop_first().len() implies regex_find_start(
            re,
            #[trigger] lines.drop_first()[i],
        ) is None by {
            assert(lines.drop_first()[i] == lines[i + 1]);
        }
        lemma_scan_without_match(re, lines.drop_first(), unit);
    }
}

/// A search through the one line that is the whole text is a search of the
/// text.
pub proof fn lemma_scan_single(re: Regex, text: Seq<char>, unit: PositionUnit)
    ensures
        scan_offset(re, seq![text], unit) == match_offset(re, text, unit),
{
    reveal_with_fuel(scan_offset, 2);
    assert(seq![text].drop_first() =~= Seq::<Seq<char>>::empty());
}

/// Searches line by line: where the first match of `re` within a line
/// starts, counted in `unit` from the start of the first line, or the
/// length of all lines together where no line holds a match.
pub fn search_lines(re: &Regex, lines: &Vec<String>, unit: PositionUnit) -> (offset: usize)
    requires
        lines_measure(lines.deep_view(), unit) <= usize::MAX,
    ensures
        offset == scan_offset(*re, lines.deep_view(), unit),
        offset <= lines_measure(lines.deep_view(), unit),
{
    let ghost all = lines.deep_view();
    let mut offset: usize = 0;
    let mut i: usize = 0;
    proof {
        assert(all.skip(0) =~= all);
    }
    while i < lines.len()
        invariant
            0 <= i <= lines.len(),
            all == lines.deep_view(),
            lines_measure(all, unit) <= usize::MAX,
            offset + lines_measure(all.skip(i as int), unit) == lines_measure(all, unit),
            offset + scan_offset(*re, all.skip(i as int), unit) == scan_offset(*re, all, unit),
        decreases lines.len() - i,
    {
        let line = lines[i].as_str();
        proof {
            assert(all.skip(i as int).drop_first() =~= all.skip(i + 1));
            assert(all.skip(i as int)[0] == line@);
        }
        match find_start(re, line) {
            Some(at) => {
                let within = offset_of_byte(line, at, unit);
                return offset + within;
            },
            None => {
                offset += measure_of(line, unit);
            },
        }
        i += 1;
    }
    offset
}

} // verus!
