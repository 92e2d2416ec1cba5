//! Text as a sequence of characters, addressed either by codepoint or by
//! UTF-8 byte offset.

use vstd::prelude::*;
use vstd::string::*;
use vstd::utf8::*;

verus! {

/// The unit in which positions and lengths of edits are counted.
#[derive(Clone, Copy, Debug, PartialEq, Eq, Structural)]
pub enum PositionUnit {
    /// Unicode scalar values.
    Codepoint,
    /// Bytes of the UTF-8 encoding.
    Byte,
}

/// Length of `s` in the given unit.
pub open spec fn measure(s: Seq<char>, unit: PositionUnit) -> nat {
    match unit {
        PositionUnit::Codepoint => s.len(),
        PositionUnit::Byte => encode_utf8(s).len(),
    }
}

/// The first `k` characters of `doc` are exactly `pos` units long.
pub open spec fn at_offset(doc: Seq<char>, unit: PositionUnit, pos: int, k: int) -> bool {
    0 <= k <= doc.len() && measure(doc.take(k), unit) == pos
}

/// `pos` is an offset between two characters of `doc` (or at one of its ends).
pub open spec fn has_offset(doc: Seq<char>, unit: PositionUnit, pos: int) -> bool {
    exists|k: int| at_offset(doc, unit, pos, k)
}

/// The number of characters of `doc` that lie before offset `pos`.
pub open spec fn index_at(doc: Seq<char>, unit: PositionUnit, pos: int) -> int {
    choose|k: int| at_offset(doc, unit, pos, k)
}

/// `doc` with `text` put in before its `k`-th character.
pub open spec fn splice(doc: Seq<char>, k: int, text: Seq<char>) -> Seq<char> {
    doc.take(k) + text + doc.skip(k)
}

/// `doc` without the characters from index `from` up to `to`.
pub open spec fn cut(doc: Seq<char>, from: int, to: int) -> Seq<char> {
    doc.take(from) + doc.skip(to)
}

/// `doc` after inserting `text` at offset `pos`.
pub open spec fn inserted(doc: Seq<char>, unit: PositionUnit, pos: int, text: Seq<char>) -> Seq<
    char,
> {
    splice(doc, index_at(doc, unit, pos), text)
}

/// The range of `len` units at offset `pos` lies within `doc`, on character
/// boundaries.
pub open spec fn can_delete(doc: Seq<char>, unit: PositionUnit, pos: int, len: int) -> bool {
    len >= 0 && has_offset(doc, unit, pos) && has_offset(doc, unit, pos + len)
}

/// `doc` after deleting `len` units at offset `pos`.
pub open spec fn deleted(doc: Seq<char>, unit: PositionUnit, pos: int, len: int) -> Seq<char> {
    cut(doc, index_at(doc, unit, pos), index_at(doc, unit, pos + len))
}

/// The UTF-8 encoding of a concatenation is the concatenation of the encodings.
pub proof fn lemma_encode_concat(a: Seq<char>, b: Seq<char>)
    ensures
        encode_utf8(a + b) == encode_utf8(a) + encode_utf8(b),
    decreases a.len(),
{
    if a.len() == 0 {
        assert(a + b =~= b);
        assert(encode_utf8(a) + encode_utf8(b) =~= encode_utf8(b));
    } else {
        lemma_encode_concat(a.drop_first(), b);
        assert((a + b).drop_first() =~= a.drop_first() + b);
        assert((a + b)[0] == a[0]);
        assert(encode_utf8(a + b) =~= encode_utf8(a) + encode_utf8(b));
    }
}

/// Every character takes at least one unit.
pub proof fn lemma_measure_bounds(s: Seq<char>, unit: PositionUnit)
    ensures
        s.len() <= measure(s, unit),
        measure(Seq::<char>::empty(), unit) == 0,
    decreases s.len(),
{
    if s.len() > 0 {
        lemma_measure_bounds(s.drop_first(), unit);
    }
}

/// Lengths add up over concatenation, in either unit.
pub proof fn lemma_measure_concat(a: Seq<char>, b: Seq<char>, unit: PositionUnit)
    ensures
        measure(a + b, unit) == measure(a, unit) + measure(b, unit),
{
    lemma_encode_concat(a, b);
}

/// A longer prefix is longer in units too.
pub proof fn lemma_measure_take_increases(doc: Seq<char>, unit: PositionUnit, i: int, j: int)
    requires
        0 <= i <= j <= doc.len(),
    ensures
        measure(doc.take(i), unit) + (j - i) <= measure(doc.take(j), unit),
{
    let mid = doc.subrange(i, j);
    assert(doc.take(j) =~= doc.take(i) + mid);
    lemma_measure_concat(doc.take(i), mid, unit);
    lemma_measure_bounds(mid, unit);
}

/// An offset determines the number of characters before it.
pub proof fn lemma_offset_unique(doc: Seq<char>, unit: PositionUnit, pos: int, k: int)
    requires
        at_offset(doc, unit, pos, k),
    ensures
        has_offset(doc, unit, pos),
        index_at(doc, unit, pos) == k,
{
    let c = index_at(doc, unit, pos);
    if c < k {
        lemma_measure_take_increases(doc, unit, c, k);
    } else if k < c {
        lemma_measure_take_increases(doc, unit, k, c);
    }
}

/// `doc` after deleting `len` units at offset `pos` and then inserting
/// `text` there.
pub open spec fn edited(
    doc: Seq<char>,
    unit: PositionUnit,
    pos: int,
    len: int,
    text: Seq<char>,
) -> Seq<char> {
    inserted(deleted(doc, unit, pos, len), unit, pos, text)
}

/// An offset of `doc` behind offset `pos` is an offset of what follows
/// `pos`, and the other way round.
pub proof fn lemma_offset_after(doc: Seq<char>, unit: PositionUnit, pos: int, len: int)
    requires
        has_offset(doc, unit, pos),
        len >= 0,
    ensures
        has_offset(doc, unit, pos + len) <==> has_offset(
            doc.skip(index_at(doc, unit, pos)),
            unit,
            len,
        ),
        has_offset(doc, unit, pos + len) ==> index_at(doc, unit, pos + len) == index_at(
            doc,
            unit,
            pos,
        ) + index_at(doc.skip(index_at(doc, unit, pos)), unit, len),
{
    lemma_offset_in_range(doc, unit, pos);
    let k = index_at(doc, unit, pos);
    let rest = doc.skip(k);
    if has_offset(doc, unit, pos + len) {
        lemma_offset_in_range(doc, unit, pos + len);
        let k2 = index_at(doc, unit, pos + len);
        if k2 < k {
            lemma_measure_take_increases(doc, unit, k2, k);
        }
        assert(doc.take(k2) =~= doc.take(k) + rest.take(k2 - k));
        lemma_measure_concat(doc.take(k), rest.take(k2 - k), unit);
        lemma_offset_unique(rest, unit, len, k2 - k);
    }
    if has_offset(rest, unit, len) {
        lemma_offset_in_range(rest, unit, len);
        let j = index_at(rest, unit, len);
        assert(doc.take(k + j) =~= doc.take(k) + rest.take(j));
        lemma_measure_concat(doc.take(k), rest.take(j), unit);
        lemma_offset_unique(doc, unit, pos + len, k + j);
    }
}

/// What an edit leaves: the text before the deleted range, the inserted
/// text, and the text behind the range.
pub proof fn lemma_edited(doc: Seq<char>, unit: PositionUnit, pos: int, len: int, text: Seq<char>)
    requires
        can_delete(doc, unit, pos, len),
    ensures
        has_offset(deleted(doc, unit, pos, len), unit, pos),
        index_at(deleted(doc, unit, pos, len), unit, pos) == index_at(doc, unit, pos),
        index_at(doc, unit, pos) <= index_at(doc, unit, pos + len),
        edited(doc, unit, pos, len, text) == doc.take(index_at(doc, unit, pos)) + text + doc.skip(
            index_at(doc, unit, pos + len),
        ),
{
    lemma_offset_in_range(doc, unit, pos);
    lemma_offset_in_range(doc, unit, pos + len);
    lemma_offset_after(doc, unit, pos, len);
    let k = index_at(doc, unit, pos);
    let k2 = index_at(doc, unit, pos + len);
    lemma_offset_in_range(doc.skip(k), unit, len);
    let d = deleted(doc, unit, pos, len);
    assert(d.take(k) =~= doc.take(k));
    assert(d.skip(k) =~= doc.skip(k2));
    lemma_offset_unique(d, unit, pos, k);
}

/// An edit within `doc` is the same edit within `doc` followed by more
/// text, and leaves that text as it is.
pub proof fn lemma_edited_before(
    doc: Seq<char>,
    tail: Seq<char>,
    unit: PositionUnit,
    pos: int,
    len: int,
    text: Seq<char>,
)
    requires
        can_delete(doc, unit, pos, len),
    ensures
        can_delete(doc + tail, unit, pos, len),
        edited(doc + tail, unit, pos, len, text) == edited(doc, unit, pos, len, text) + tail,
{
    lemma_offset_in_range(doc, unit, pos);
    lemma_offset_in_range(doc, unit, pos + len);
    let k = index_at(doc, unit, pos);
    let k2 = index_at(doc, unit, pos + len);
    let whole = doc + tail;
    assert(whole.take(k) =~= doc.take(k));
    assert(whole.take(k2) =~= doc.take(k2));
    lemma_offset_unique(whole, unit, pos, k);
    lemma_offset_unique(whole, unit, pos + len, k2);
    lemma_edited(doc, unit, pos, len, text);
    lemma_edited(whole, unit, pos, len, text);
    assert(whole.skip(k2) =~= doc.skip(k2) + tail);
    assert(whole.take(k) + text + whole.skip(k2) =~= doc.take(k) + text + doc.skip(k2) + tail);
}

/// `n` copies of `text`, one after another.
pub open spec fn repeated(text: Seq<char>, n: nat) -> Seq<char>
    decreases n,
{
    if n == 0 {
        Seq::empty()
    } else {
        text + repeated(text, (n - 1) as nat)
    }
}

/// Copies of a text can be counted from either end.
pub proof fn lemma_repeated_end(text: Seq<char>, n: nat)
    ensures
        repeated(text, n) + text == repeated(text, n + 1),
        repeated(text, n).len() == n * text.len(),
    decreases n,
{
    if n == 0 {
        assert(repeated(text, 0) + text =~= text + repeated(text, 0));
    } else {
        lemma_repeated_end(text, (n - 1) as nat);
        assert(repeated(text, n) + text =~= text + (repeated(text, (n - 1) as nat) + text));
        assert(n * text.len() == (n - 1) * text.len() + text.len()) by (nonlinear_arith);
    }
}

/// Where every character takes one unit, offsets are character indices.
pub open spec fn plain_offsets(doc: Seq<char>, unit: PositionUnit) -> bool {
    unit == PositionUnit::Codepoint || is_ascii_chars(doc)
}

/// In codepoints, and in bytes of ASCII text, the offset of the `k`-th
/// character is `k`.
pub proof fn lemma_plain_offset(doc: Seq<char>, unit: PositionUnit, k: int)
    requires
        plain_offsets(doc, unit),
        0 <= k <= doc.len(),
    ensures
        at_offset(doc, unit, k, k),
        has_offset(doc, unit, k),
        index_at(doc, unit, k) == k,
{
    if unit == PositionUnit::Byte {
        is_ascii_chars_encode_utf8(doc.take(k));
    }
    lemma_offset_unique(doc, unit, k, k);
}

/// Putting text of one unit per character into such text, or taking some
/// out, leaves text of one unit per character.
pub proof fn lemma_plain_edits(
    doc: Seq<char>,
    unit: PositionUnit,
    from: int,
    to: int,
    text: Seq<char>,
)
    requires
        plain_offsets(doc, unit),
        plain_offsets(text, unit),
        0 <= from <= to <= doc.len(),
    ensures
        plain_offsets(splice(doc, from, text), unit),
        plain_offsets(cut(doc, from, to), unit),
        plain_offsets(doc.take(from) + text + doc.skip(to), unit),
{
}

/// An offset of `doc` is at most the length of `doc`.
pub proof fn lemma_offset_in_range(doc: Seq<char>, unit: PositionUnit, pos: int)
    requires
        has_offset(doc, unit, pos),
    ensures
        0 <= pos <= measure(doc, unit),
        0 <= index_at(doc, unit, pos) <= doc.len(),
        measure(doc.take(index_at(doc, unit, pos)), unit) == pos,
{
    let k = index_at(doc, unit, pos);
    lemma_measure_take_increases(doc, unit, k, doc.len() as int);
    assert(doc.take(doc.len() as int) =~= doc);
}

/// Length of `s` in the given unit.
pub fn measure_of(s: &str, unit: PositionUnit) -> (n: usize)
    ensures
        n == measure(s@, unit),
{
    match unit {
        PositionUnit::Codepoint => s.unicode_len(),
        PositionUnit::Byte => s.as_bytes().len(),
    }
}

/// Splits `s` at offset `pos`, or returns `None` where `pos` is no offset
/// of `s`: beyond its end or, in bytes, inside a character.
pub fn split_at_offset<'a>(s: &'a str, unit: PositionUnit, pos: usize) -> (parts: Option<
    (&'a str, &'a str),
>)
    ensures
        parts is Some <==> has_offset(s@, unit, pos as int),
        parts matches Some((head, tail)) ==> {
            &&& head@ == s@.take(index_at(s@, unit, pos as int))
            &&& tail@ == s@.skip(index_at(s@, unit, pos as int))
        },
{
    match unit {
        PositionUnit::Codepoint => {
            let n: usize = s.unicode_len();
            if pos <= n {
                proof {
                    lemma_offset_unique(s@, unit, pos as int, pos as int);
                }
                Some((s.substring_char(0, pos), s.substring_char(pos, n)))
            } else {
                proof {
                    if has_offset(s@, unit, pos as int) {
                        lemma_offset_in_range(s@, unit, pos as int);
                    }
                }
                None
            }
        },
        PositionUnit::Byte => {
            let n: usize = s.as_bytes().len();
            if pos <= n && s.is_char_boundary(pos) {
                let (head, tail) = s.split_at(pos);
                proof {
                    lemma_byte_split(s@, pos as int, head@, tail@);
                }
                Some((head, tail))
            } else {
                proof {
                    if has_offset(s@, unit, pos as int) {
                        lemma_offset_in_range(s@, unit, pos as int);
                        lemma_byte_offset_is_boundary(s@, index_at(s@, unit, pos as int));
                    }
                }
                None
            }
        },
    }
}

/// `doc` after deleting `len` units at offset `pos` and inserting `text`
/// there, or `None` where the range does not lie within `doc` on character
/// boundaries.
pub fn apply_edit(doc: &str, unit: PositionUnit, pos: usize, len: usize, text: &str) -> (out:
    Option<String>)
    ensures
        out is Some <==> can_delete(doc@, unit, pos as int, len as int),
        out matches Some(s) ==> s@ == edited(doc@, unit, pos as int, len as int, text@),
{
    match split_at_offset(doc, unit, pos) {
        None => None,
        Some((head, rest)) => {
            proof {
                lemma_offset_after(doc@, unit, pos as int, len as int);
            }
            match split_at_offset(rest, unit, len) {
                None => None,
                Some((_, tail)) => {
                    proof {
                        lemma_edited(doc@, unit, pos as int, len as int, text@);
                        let k = index_at(doc@, unit, pos as int);
                        let k2 = index_at(doc@, unit, pos + len);
                        assert(doc@.skip(k).skip(k2 - k) =~= doc@.skip(k2));
                    }
                    let mut s: String = head.to_owned();
                    s.append(text);
                    s.append(tail);
                    Some(s)
                },
            }
        },
    }
}

/// `contents` repeated to a text of `size` bytes: as many whole copies as
/// fit, and then the start of one more copy.
pub fn stretch(contents: &str, size: usize) -> (out: String)
    requires
        contents@.len() > 0,
        has_offset(
            contents@,
            PositionUnit::Byte,
            size as int % encode_utf8(contents@).len() as int,
        ),
    ensures
        out@ == repeated(contents@, (size as int / encode_utf8(contents@).len() as int) as nat)
            + contents@.take(
            index_at(
                contents@,
                PositionUnit::Byte,
                size as int % encode_utf8(contents@).len() as int,
            ),
        ),
        encode_utf8(out@).len() == size,
{
    let len: usize = contents.as_bytes().len();
    proof {
        lemma_measure_bounds(contents@, PositionUnit::Byte);
    }
    let repeat: usize = size / len;
    let mut out = String::new();
    let mut done: usize = 0;
    proof {
        assert(repeat * len <= size && size == repeat * len + size % len) by (nonlinear_arith)
            requires
                repeat == size / len,
                len > 0,
        ;
    }
    while done < repeat
        invariant
            0 <= done <= repeat,
            len == encode_utf8(contents@).len(),
            size == repeat * len + size % len,
            out@ == repeated(contents@, done as nat),
            encode_utf8(out@).len() == done * len,
        decreases repeat - done,
    {
        proof {
            lemma_repeated_end(contents@, done as nat);
            lemma_encode_concat(out@, contents@);
            assert((done + 1) * len == done * len + len) by (nonlinear_arith);
        }
        out.append(contents);
        done += 1;
    }
    match split_at_offset(contents, PositionUnit::Byte, size % len) {
        Some((head, _)) => {
            proof {
                lemma_encode_concat(out@, head@);
                lemma_offset_in_range(contents@, PositionUnit::Byte, size as int % len as int);
            }
            out.append(head);
        },
        None => {},
    }
    out
}

/// Two strings whose encodings make up the encoding of `doc`, the first of
/// them `pos` bytes long, are `doc` split at byte offset `pos`.
pub proof fn lemma_byte_split(doc: Seq<char>, pos: int, head: Seq<char>, tail: Seq<char>)
    requires
        0 <= pos <= encode_utf8(doc).len(),
        is_char_boundary(encode_utf8(doc), pos),
        encode_utf8(head) =~= encode_utf8(doc).subrange(0, pos),
        encode_utf8(tail) =~= encode_utf8(doc).subrange(pos, encode_utf8(doc).len() as int),
    ensures
        has_offset(doc, PositionUnit::Byte, pos),
        head == doc.take(index_at(doc, PositionUnit::Byte, pos)),
        tail == doc.skip(index_at(doc, PositionUnit::Byte, pos)),
{
    let bytes = encode_utf8(doc);
    encode_utf8_valid_utf8(doc);
    decode_utf8_split(bytes, pos);
    encode_utf8_decode_utf8(doc);
    encode_utf8_decode_utf8(head);
    encode_utf8_decode_utf8(tail);
    assert(doc =~= head + tail);
    let k = head.len() as int;
    assert(doc.take(k) =~= head);
    assert(doc.skip(k) =~= tail);
    lemma_offset_unique(doc, PositionUnit::Byte, pos, k);
}

/// The encoding of a prefix of `doc` ends on a character boundary of the
/// encoding of `doc`.
proof fn lemma_byte_offset_is_boundary(doc: Seq<char>, k: int)
    requires
        0 <= k <= doc.len(),
    ensures
        is_char_boundary(encode_utf8(doc), encode_utf8(doc.take(k)).len() as int),
    decreases k,
{
    encode_utf8_valid_utf8(doc);
    if k == 0 {
    } else {
        let rest = doc.drop_first();
        encode_utf8_first_scalar(doc);
        encode_utf8_valid_utf8(rest);
        lemma_byte_offset_is_boundary(rest, k - 1);
        assert(doc.take(k).drop_first() =~= rest.take(k - 1));
        assert(pop_first_scalar(encode_utf8(doc)) =~= encode_utf8(rest));
    }
}

} // verus!
