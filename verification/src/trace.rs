//! Recorded editing sessions: patches grouped into transactions, and what
//! replaying them makes of a text.

use crate::text::{
    apply_edit, can_delete, edited, has_offset, index_at, lemma_edited, lemma_edited_before,
    lemma_offset_in_range, lemma_plain_offset, measure, measure_of, PositionUnit,
};
use vstd::prelude::*;
use vstd::string::*;
use vstd::utf8::{is_ascii_chars, is_ascii_chars_encode_utf8};

verus! {

/// One positional edit: delete `delete_length` units at `position`, then
/// insert `insert_text` there.
#[derive(Clone, Debug, PartialEq, Eq)]
pub struct Patch {
    pub position: usize,
    pub delete_length: usize,
    pub insert_text: String,
}

/// A patch as a mathematical value.
pub struct PatchModel {
    pub position: nat,
    pub delete_length: nat,
    pub insert_text: Seq<char>,
}

impl View for Patch {
    type V = PatchModel;

    open spec fn view(&self) -> PatchModel {
        PatchModel {
            position: self.position as nat,
            delete_length: self.delete_length as nat,
            insert_text: self.insert_text@,
        }
    }
}

impl DeepView for Patch {
    type V = PatchModel;

    open spec fn deep_view(&self) -> PatchModel {
        self@
    }
}

/// An ordered batch of patches, applied in sequence.
#[derive(Clone, Debug, PartialEq, Eq)]
pub struct Transaction {
    pub patches: Vec<Patch>,
}

impl DeepView for Transaction {
    type V = Seq<PatchModel>;

    open spec fn deep_view(&self) -> Seq<PatchModel> {
        self.patches.deep_view()
    }
}

/// A recorded editing session with the text it starts from and the text it
/// ends with.
#[derive(Clone, Debug, PartialEq, Eq)]
pub struct Trace {
    pub start_content: String,
    pub end_content: String,
    pub transactions: Vec<Transaction>,
    pub position_unit: PositionUnit,
}

impl PatchModel {
    /// The patch stays within `doc`.
    pub open spec fn applies_to(self, doc: Seq<char>, unit: PositionUnit) -> bool {
        can_delete(doc, unit, self.position as int, self.delete_length as int)
    }

    /// `doc` after the patch.
    pub open spec fn apply(self, doc: Seq<char>, unit: PositionUnit) -> Seq<char> {
        edited(doc, unit, self.position as int, self.delete_length as int, self.insert_text)
    }
}

impl Patch {
    /// `doc` after the patch, or `None` where the patch does not stay within
    /// `doc`.
    pub fn apply_to(&self, doc: &str, unit: PositionUnit) -> (out: Option<String>)
        ensures
            out is Some <==> self@.applies_to(doc@, unit),
            out matches Some(s) ==> s@ == self@.apply(doc@, unit),
    {
        apply_edit(doc, unit, self.position, self.delete_length, self.insert_text.as_str())
    }
}

/// `doc` after all of `patches`, in order; `None` where one of them does not
/// stay within the text it meets.
pub open spec fn replay(doc: Seq<char>, unit: PositionUnit, patches: Seq<PatchModel>) -> Option<
    Seq<char>,
>
    decreases patches.len(),
{
    if patches.len() == 0 {
        Some(doc)
    } else {
        match replay(doc, unit, patches.drop_last()) {
            Some(before) => if patches.last().applies_to(before, unit) {
                Some(patches.last().apply(before, unit))
            } else {
                None
            },
            None => None,
        }
    }
}

/// Replaying `a + b` is replaying `a` and then `b`.
pub proof fn lemma_replay_concat(
    doc: Seq<char>,
    unit: PositionUnit,
    a: Seq<PatchModel>,
    b: Seq<PatchModel>,
)
    ensures
        replay(doc, unit, a + b) == match replay(doc, unit, a) {
            Some(mid) => replay(mid, unit, b),
            None => None,
        },
    decreases b.len(),
{
    if b.len() == 0 {
        assert(a + b =~= a);
    } else {
        lemma_replay_concat(doc, unit, a, b.drop_last());
        assert((a + b).drop_last() =~= a + b.drop_last());
        assert((a + b).last() == b.last());
    }
}

/// Where patches can be replayed, every one of them meets a text that it
/// stays within: neither its position nor the end of what it deletes lies
/// beyond the end of the text at that time.
pub proof fn theorem_replay_in_bounds(
    doc: Seq<char>,
    unit: PositionUnit,
    patches: Seq<PatchModel>,
    i: int,
)
    requires
        replay(doc, unit, patches) is Some,
        0 <= i < patches.len(),
    ensures
        replay(doc, unit, patches.take(i)) is Some,
        patches[i].applies_to(replay(doc, unit, patches.take(i))->0, unit),
        patches[i].position + patches[i].delete_length <= measure(
            replay(doc, unit, patches.take(i))->0,
            unit,
        ),
{
    assert(patches =~= patches.take(i + 1) + patches.skip(i + 1));
    lemma_replay_concat(doc, unit, patches.take(i + 1), patches.skip(i + 1));
    assert(patches.take(i + 1).drop_last() =~= patches.take(i));
    let before = replay(doc, unit, patches.take(i))->0;
    lemma_offset_in_range(
        before,
        unit,
        (patches[i].position + patches[i].delete_length) as int,
    );
}

/// Patches that can be replayed on `doc` can be replayed on `doc` followed
/// by more text, and leave that text as it is.
pub proof fn lemma_replay_before(
    doc: Seq<char>,
    tail: Seq<char>,
    unit: PositionUnit,
    patches: Seq<PatchModel>,
)
    requires
        replay(doc, unit, patches) is Some,
    ensures
        replay(doc + tail, unit, patches) == Some(replay(doc, unit, patches)->0 + tail),
    decreases patches.len(),
{
    if patches.len() > 0 {
        let stem = patches.drop_last();
        let last = patches.last();
        lemma_replay_before(doc, tail, unit, stem);
        lemma_edited_before(
            replay(doc, unit, stem)->0,
            tail,
            unit,
            last.position as int,
            last.delete_length as int,
            last.insert_text,
        );
    }
}

/// On ASCII text, patches that insert ASCII text do the same in bytes as
/// in codepoints: every offset is valid in both units or in neither.
pub proof fn theorem_ascii_either_unit(doc: Seq<char>, patches: Seq<PatchModel>)
    requires
        is_ascii_chars(doc),
        forall|i: int| 0 <= i < patches.len() ==> is_ascii_chars((#[trigger] patches[i]).insert_text),
    ensures
        replay(doc, PositionUnit::Codepoint, patches) == replay(doc, PositionUnit::Byte, patches),
        replay(doc, PositionUnit::Byte, patches) matches Some(end) ==> is_ascii_chars(end),
    decreases patches.len(),
{
    if patches.len() > 0 {
        let stem = patches.drop_last();
        let last = patches.last();
        assert forall|i: int| 0 <= i < stem.len() implies is_ascii_chars(
            (#[trigger] stem[i]).insert_text,
        ) by {
            assert(stem[i] == patches[i]);
        }
        theorem_ascii_either_unit(doc, stem);
        if replay(doc, PositionUnit::Byte, stem) is Some {
            let before = replay(doc, PositionUnit::Byte, stem)->0;
            lemma_ascii_edit(
                before,
                last.position as int,
                last.delete_length as int,
                last.insert_text,
            );
        }
    }
}

/// On ASCII text an edit is the same in bytes as in codepoints.
pub proof fn lemma_ascii_edit(doc: Seq<char>, pos: int, len: int, text: Seq<char>)
    requires
        is_ascii_chars(doc),
        is_ascii_chars(text),
        0 <= pos,
        0 <= len,
    ensures
        can_delete(doc, PositionUnit::Byte, pos, len) == can_delete(
            doc,
            PositionUnit::Codepoint,
            pos,
            len,
        ),
        can_delete(doc, PositionUnit::Byte, pos, len) ==> edited(
            doc,
            PositionUnit::Byte,
            pos,
            len,
            text,
        ) == edited(doc, PositionUnit::Codepoint, pos, len, text) && is_ascii_chars(
            edited(doc, PositionUnit::Byte, pos, len, text),
        ),
{
    lemma_ascii_offset(doc, pos);
    lemma_ascii_offset(doc, pos + len);
    if can_delete(doc, PositionUnit::Byte, pos, len) {
        lemma_edited(doc, PositionUnit::Byte, pos, len, text);
        lemma_edited(doc, PositionUnit::Codepoint, pos, len, text);
    }
}

/// On ASCII text the byte offsets are the codepoint offsets.
pub proof fn lemma_ascii_offset(doc: Seq<char>, pos: int)
    requires
        is_ascii_chars(doc),
        0 <= pos,
    ensures
        has_offset(doc, PositionUnit::Byte, pos) == (pos <= doc.len()),
        has_offset(doc, PositionUnit::Codepoint, pos) == (pos <= doc.len()),
        pos <= doc.len() ==> index_at(doc, PositionUnit::Byte, pos) == pos && index_at(
            doc,
            PositionUnit::Codepoint,
            pos,
        ) == pos,
{
    if pos <= doc.len() {
        lemma_plain_offset(doc, PositionUnit::Byte, pos);
        lemma_plain_offset(doc, PositionUnit::Codepoint, pos);
    } else {
        if has_offset(doc, PositionUnit::Byte, pos) {
            let k = index_at(doc, PositionUnit::Byte, pos);
            lemma_offset_in_range(doc, PositionUnit::Byte, pos);
            is_ascii_chars_encode_utf8(doc);
        }
        if has_offset(doc, PositionUnit::Codepoint, pos) {
            lemma_offset_in_range(doc, PositionUnit::Codepoint, pos);
        }
    }
}

/// Every character of `text` takes one unit: any text in codepoints, ASCII
/// text in bytes.
pub open spec fn plain_text(text: Seq<char>, unit: PositionUnit) -> bool {
    measure(text, unit) == text.len()
}

impl Trace {
    /// All patches of the trace, in the order in which they apply.
    pub open spec fn patches(&self) -> Seq<PatchModel> {
        self.transactions.deep_view().flatten()
    }

    /// Replaying the patches on the start content stays within the text at
    /// every step and yields the end content.
    pub open spec fn well_formed(&self) -> bool {
        replay(self.start_content@, self.position_unit, self.patches()) == Some(
            self.end_content@,
        )
    }

    /// Every inserted text is as long in the trace's unit as in characters.
    pub open spec fn plain_texts(&self) -> bool {
        forall|i: int|
            0 <= i < self.patches().len() ==> plain_text(
                (#[trigger] self.patches()[i]).insert_text,
                self.position_unit,
            )
    }

    /// The number of patches in all transactions.
    pub fn len(&self) -> (n: usize)
        ensures
            n == self.patches().len(),
    {
        self.patch_refs().len()
    }

    /// Whether no transaction holds a patch.
    pub fn is_empty(&self) -> (empty: bool)
        ensures
            empty == (self.patches().len() == 0),
    {
        let ghost txns = self.transactions.deep_view();
        let mut t: usize = 0;
        proof {
            assert(txns.take(0) =~= Seq::empty());
        }
        while t < self.transactions.len()
            invariant
                0 <= t <= self.transactions.len(),
                txns == self.transactions.deep_view(),
                txns.take(t as int).flatten().len() == 0,
            decreases self.transactions.len() - t,
        {
            if self.transactions[t].patches.len() > 0 {
                proof {
                    txns.lemma_flatten_length_ge_single_element_length(t as int);
                    txns.lemma_flatten_and_flatten_alt_are_equivalent();
                    assert(txns[t as int].len() == self.transactions[t as int].patches.len());
                }
                return false;
            }
            proof {
                assert(txns.take(t + 1) =~= txns.take(t as int).push(txns[t as int]));
                txns.take(t as int).lemma_flatten_push(txns[t as int]);
            }
            t += 1;
        }
        proof {
            assert(txns.take(t as int) =~= txns);
        }
        true
    }

    /// Whether every inserted text is as long in the trace's unit as in
    /// characters.
    pub fn has_plain_texts(&self) -> (plain: bool)
        ensures
            plain == self.plain_texts(),
    {
        let refs = self.patch_refs();
        let ghost all = self.patches();
        let mut i: usize = 0;
        while i < refs.len()
            invariant
                0 <= i <= refs.len(),
                all == self.patches(),
                refs.deep_view() == all,
                forall|k: int|
                    0 <= k < i ==> plain_text((#[trigger] all[k]).insert_text, self.position_unit),
            decreases refs.len() - i,
        {
            let text = refs[i].insert_text.as_str();
            assert(all[i as int] == refs[i as int]@);
            if measure_of(text, self.position_unit) != text.unicode_len() {
                return false;
            }
            i += 1;
        }
        true
    }

    /// The start content and every inserted text are ASCII.
    pub open spec fn ascii(&self) -> bool {
        &&& is_ascii_chars(self.start_content@)
        &&& forall|i: int|
            0 <= i < self.patches().len() ==> is_ascii_chars(
                (#[trigger] self.patches()[i]).insert_text,
            )
    }

    /// Whether the start content and every inserted text are ASCII.
    pub fn is_ascii(&self) -> (ascii: bool)
        ensures
            ascii == self.ascii(),
    {
        if !self.start_content.as_str().is_ascii() {
            return false;
        }
        let refs = self.patch_refs();
        let ghost all = self.patches();
        let mut i: usize = 0;
        while i < refs.len()
            invariant
                0 <= i <= refs.len(),
                all == self.patches(),
                refs.deep_view() == all,
                forall|k: int| 0 <= k < i ==> is_ascii_chars((#[trigger] all[k]).insert_text),
            decreases refs.len() - i,
        {
            assert(all[i as int] == refs[i as int]@);
            if !refs[i].insert_text.as_str().is_ascii() {
                return false;
            }
            i += 1;
        }
        true
    }

    /// The trace with its positions read in `unit`: the trace itself where
    /// that is its unit, and an ASCII trace in either unit, where it is
    /// well formed if it was. Any other trace is handed back as it is.
    pub fn with_unit(self, unit: PositionUnit) -> (out: Result<Trace, Trace>)
        ensures
            out is Ok <==> unit == self.position_unit || self.ascii(),
            out matches Ok(trace) ==> {
                &&& trace.position_unit == unit
                &&& trace.start_content == self.start_content
                &&& trace.end_content == self.end_content
                &&& trace.transactions == self.transactions
                &&& trace.well_formed() == self.well_formed()
            },
            out matches Err(trace) ==> trace == self,
    {
        if unit == self.position_unit {
            return Ok(self);
        }
        if !self.is_ascii() {
            return Err(self);
        }
        proof {
            theorem_ascii_either_unit(self.start_content@, self.patches());
        }
        Ok(
            Trace {
                start_content: self.start_content,
                end_content: self.end_content,
                transactions: self.transactions,
                position_unit: unit,
            },
        )
    }

    /// The patches of all transactions, in order.
    pub fn patch_refs(&self) -> (refs: Vec<&Patch>)
        ensures
            refs.deep_view() == self.patches(),
    {
        let ghost txns = self.transactions.deep_view();
        let mut refs: Vec<&Patch> = Vec::new();
        let mut t: usize = 0;
        proof {
            assert(txns.take(0) =~= Seq::empty());
            assert(refs.deep_view() =~= txns.take(0).flatten());
        }
        while t < self.transactions.len()
            invariant
                0 <= t <= self.transactions.len(),
                txns == self.transactions.deep_view(),
                refs.deep_view() == txns.take(t as int).flatten(),
            decreases self.transactions.len() - t,
        {
            let txn = &self.transactions[t];
            let ghost done = refs.deep_view();
            let mut j: usize = 0;
            proof {
                assert(txns[t as int].take(0) =~= Seq::empty());
                assert(refs.deep_view() =~= done + txns[t as int].take(0));
            }
            while j < txn.patches.len()
                invariant
                    0 <= t < self.transactions.len(),
                    txns == self.transactions.deep_view(),
                    txn == &self.transactions[t as int],
                    0 <= j <= txn.patches.len(),
                    refs.deep_view() == done + txns[t as int].take(j as int),
                decreases txn.patches.len() - j,
            {
                let ghost before = refs.deep_view();
                refs.push(&txn.patches[j]);
                proof {
                    assert(txns[t as int].take(j + 1) =~= txns[t as int].take(j as int).push(
                        txn.patches[j as int]@,
                    ));
                    assert(refs.deep_view() =~= before.push(txn.patches[j as int]@));
                    assert(refs.deep_view() =~= done + txns[t as int].take(j + 1));
                }
                j += 1;
            }
            proof {
                assert(txns[t as int].take(j as int) =~= txns[t as int]);
                assert(txns.take(t + 1) =~= txns.take(t as int).push(txns[t as int]));
                txns.take(t as int).lemma_flatten_push(txns[t as int]);
            }
            t += 1;
        }
        proof {
            assert(txns.take(t as int) =~= txns);
        }
        refs
    }

    /// Whether the trace is well formed, found by replaying it.
    pub fn is_valid(&self) -> (ok: bool)
        ensures
            ok == self.well_formed(),
    {
        let unit = self.position_unit;
        let refs = self.patch_refs();
        let ghost all = self.patches();
        let mut doc: String = self.start_content.clone();
        let mut i: usize = 0;
        proof {
            assert(all.take(0) =~= Seq::empty());
        }
        while i < refs.len()
            invariant
                0 <= i <= refs.len(),
                unit == self.position_unit,
                all == self.patches(),
                refs.deep_view() == all,
                replay(self.start_content@, unit, all.take(i as int)) == Some(doc@),
            decreases refs.len() - i,
        {
            let next = refs[i].apply_to(doc.as_str(), unit);
            proof {
                assert(all.take(i + 1).drop_last() =~= all.take(i as int));
                assert(all[i as int] == refs[i as int]@);
            }
            match next {
                Some(after) => {
                    doc = after;
                },
                None => {
                    proof {
                        assert(all =~= all.take(i + 1) + all.skip(i + 1));
                        lemma_replay_concat(
                            self.start_content@,
                            unit,
                            all.take(i + 1),
                            all.skip(i + 1),
                        );
                    }
                    return false;
                },
            }
            i += 1;
        }
        proof {
            assert(all.take(i as int) =~= all);
        }
        doc == self.end_content
    }
}

} // verus!
