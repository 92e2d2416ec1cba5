//! What merging keeps and what it changes: the text that the operations
//! produce, their number, and when merging again changes nothing.

use crate::coalesce::{coalesced, flattened, merge_step, patch_ops, replay_ops, OpModel};
use crate::text::{
    can_delete, cut, deleted, has_offset, index_at, inserted, lemma_edited,
    lemma_measure_concat, lemma_measure_take_increases, lemma_offset_in_range,
    lemma_offset_unique, splice, PositionUnit,
};
use crate::trace::{plain_text, replay, PatchModel, Trace};
use vstd::prelude::*;

verus! {

impl OpModel {
    /// The text of an insertion is as long in units as in characters.
    pub open spec fn plain(self, unit: PositionUnit) -> bool {
        match self {
            OpModel::Insert { text, .. } => plain_text(text, unit),
            OpModel::Delete { .. } => true,
        }
    }
}

/// Every insertion among `ops` inserts text that is as long in units as in
/// characters. In codepoints all text is; in bytes, ASCII text is.
pub open spec fn plain_inserts(ops: Seq<OpModel>, unit: PositionUnit) -> bool {
    forall|i: int| 0 <= i < ops.len() ==> (#[trigger] ops[i]).plain(unit)
}

/// Inserting `t` right behind a text `t0` that was just inserted is
/// inserting `t0 + t`.
pub proof fn lemma_insert_continued(
    doc: Seq<char>,
    unit: PositionUnit,
    p0: int,
    t0: Seq<char>,
    t: Seq<char>,
)
    requires
        has_offset(doc, unit, p0),
        plain_text(t0, unit),
    ensures
        has_offset(inserted(doc, unit, p0, t0), unit, p0 + t0.len()),
        inserted(inserted(doc, unit, p0, t0), unit, p0 + t0.len(), t) == inserted(
            doc,
            unit,
            p0,
            t0 + t,
        ),
{
    lemma_offset_in_range(doc, unit, p0);
    let k = index_at(doc, unit, p0);
    let mid = inserted(doc, unit, p0, t0);
    let j = k + t0.len();
    assert(mid.take(j) =~= doc.take(k) + t0);
    lemma_measure_concat(doc.take(k), t0, unit);
    lemma_offset_unique(mid, unit, p0 + t0.len(), j);
    assert(mid.skip(j) =~= doc.skip(k));
    assert(splice(mid, j, t) =~= splice(doc, k, t0 + t));
}

/// Deleting `n` units where `n0` units were just deleted is deleting
/// `n0 + n` units there.
pub proof fn lemma_delete_continued(doc: Seq<char>, unit: PositionUnit, p0: int, n0: int, n: int)
    requires
        can_delete(doc, unit, p0, n0),
        can_delete(deleted(doc, unit, p0, n0), unit, p0, n),
    ensures
        can_delete(doc, unit, p0, n0 + n),
        deleted(deleted(doc, unit, p0, n0), unit, p0, n) == deleted(doc, unit, p0, n0 + n),
{
    lemma_edited(doc, unit, p0, n0, Seq::empty());
    lemma_offset_in_range(doc, unit, p0);
    lemma_offset_in_range(doc, unit, p0 + n0);
    let k0 = index_at(doc, unit, p0);
    let k1 = index_at(doc, unit, p0 + n0);
    let mid = deleted(doc, unit, p0, n0);
    lemma_offset_in_range(mid, unit, p0 + n);
    let j = index_at(mid, unit, p0 + n);
    if j < k0 {
        lemma_measure_take_increases(mid, unit, j, k0);
    }
    let gone = mid.subrange(k0, j);
    assert(mid.take(j) =~= mid.take(k0) + gone);
    lemma_measure_concat(mid.take(k0), gone, unit);
    let k2 = k1 + (j - k0);
    assert(gone =~= doc.subrange(k1, k2));
    assert(doc.take(k2) =~= doc.take(k1) + gone);
    lemma_measure_concat(doc.take(k1), gone, unit);
    lemma_offset_unique(doc, unit, p0 + n0 + n, k2);
    assert(cut(mid, k0, j) =~= cut(doc, k0, k2));
}

/// Deleting the `n` units that end where `n0` units were just deleted is
/// deleting `n0 + n` units from where the second deletion starts.
pub proof fn lemma_delete_backspaced(
    doc: Seq<char>,
    unit: PositionUnit,
    p0: int,
    n0: int,
    p: int,
    n: int,
)
    requires
        can_delete(doc, unit, p0, n0),
        p + n == p0,
        can_delete(deleted(doc, unit, p0, n0), unit, p, n),
    ensures
        can_delete(doc, unit, p, n0 + n),
        deleted(deleted(doc, unit, p0, n0), unit, p, n) == deleted(doc, unit, p, n0 + n),
{
    lemma_edited(doc, unit, p0, n0, Seq::empty());
    lemma_offset_in_range(doc, unit, p0);
    lemma_offset_in_range(doc, unit, p0 + n0);
    let k0 = index_at(doc, unit, p0);
    let k1 = index_at(doc, unit, p0 + n0);
    let mid = deleted(doc, unit, p0, n0);
    lemma_offset_in_range(mid, unit, p);
    let i = index_at(mid, unit, p);
    if k0 < i {
        lemma_measure_take_increases(mid, unit, k0, i);
    }
    assert(mid.take(i) =~= doc.take(i));
    lemma_offset_unique(doc, unit, p, i);
    assert(cut(mid, i, k0) =~= cut(doc, i, k1));
}

/// Merging `op` into `out` gives the text that `out` followed by `op` gives.
pub proof fn lemma_merge_step_replay(
    doc: Seq<char>,
    unit: PositionUnit,
    out: Seq<OpModel>,
    op: OpModel,
)
    requires
        replay_ops(doc, unit, out.push(op)) is Some,
        plain_inserts(out, unit),
        op.plain(unit),
    ensures
        replay_ops(doc, unit, merge_step(out, op)) == replay_ops(doc, unit, out.push(op)),
        plain_inserts(merge_step(out, op), unit),
{
    assert(out.push(op).drop_last() =~= out);
    assert(replay_ops(doc, unit, out) is Some);
    if out.len() > 0 && out.last().merges_with(op) {
        let stem = out.drop_last();
        let last = out.last();
        assert(replay_ops(doc, unit, stem) is Some);
        let base = replay_ops(doc, unit, stem)->0;
        assert(last.applies_to(base, unit));
        assert(replay_ops(doc, unit, out) == Some(last.apply(base, unit)));
        assert(op.applies_to(last.apply(base, unit), unit));
        let both = last.merged_with(op);
        assert(stem.push(both).drop_last() =~= stem);
        assert(last.plain(unit));
        match (last, op) {
            (
                OpModel::Insert { position: p0, text: t0 },
                OpModel::Insert { position: p, text: t },
            ) => {
                lemma_insert_continued(base, unit, p0 as int, t0, t);
                lemma_measure_concat(t0, t, unit);
            },
            (
                OpModel::Delete { position: p0, length: n0 },
                OpModel::Delete { position: p, length: n },
            ) => {
                if p == p0 {
                    lemma_delete_continued(base, unit, p0 as int, n0 as int, n as int);
                } else {
                    lemma_delete_backspaced(
                        base,
                        unit,
                        p0 as int,
                        n0 as int,
                        p as int,
                        n as int,
                    );
                }
            },
            _ => {},
        }
        assert forall|i: int| 0 <= i < merge_step(out, op).len() implies (
        #[trigger] merge_step(out, op)[i]).plain(unit) by {
            if i < stem.len() {
                assert(merge_step(out, op)[i] == out[i]);
            }
        }
    } else {
        assert forall|i: int| 0 <= i < merge_step(out, op).len() implies (
        #[trigger] merge_step(out, op)[i]).plain(unit) by {
            if i < out.len() {
                assert(merge_step(out, op)[i] == out[i]);
            }
        }
    }
}

/// Coalescing keeps the effect: where `ops` can be replayed on `doc` and
/// every inserted text is as long in units as in characters, the coalesced
/// operations can be replayed too and give the same text.
pub proof fn theorem_coalesced_replay(doc: Seq<char>, unit: PositionUnit, ops: Seq<OpModel>)
    requires
        replay_ops(doc, unit, ops) is Some,
        plain_inserts(ops, unit),
    ensures
        replay_ops(doc, unit, coalesced(ops)) == replay_ops(doc, unit, ops),
        plain_inserts(coalesced(ops), unit),
    decreases ops.len(),
{
    if ops.len() > 0 {
        let stem = ops.drop_last();
        theorem_coalesced_replay(doc, unit, stem);
        let out = coalesced(stem);
        assert(out.push(ops.last()).drop_last() =~= out);
        lemma_merge_step_replay(doc, unit, out, ops.last());
    }
}

/// Replaying operations one after another: `a + b` is `a` and then `b`.
pub proof fn lemma_replay_ops_concat(
    doc: Seq<char>,
    unit: PositionUnit,
    a: Seq<OpModel>,
    b: Seq<OpModel>,
)
    ensures
        replay_ops(doc, unit, a + b) == match replay_ops(doc, unit, a) {
            Some(mid) => replay_ops(mid, unit, b),
            None => None,
        },
    decreases b.len(),
{
    if b.len() == 0 {
        assert(a + b =~= a);
    } else {
        lemma_replay_ops_concat(doc, unit, a, b.drop_last());
        assert((a + b).drop_last() =~= a + b.drop_last());
        assert((a + b).last() == b.last());
    }
}

/// A patch that stays within `doc` does what its operations do.
pub proof fn lemma_patch_ops_replay(doc: Seq<char>, unit: PositionUnit, patch: PatchModel)
    requires
        patch.applies_to(doc, unit),
    ensures
        replay_ops(doc, unit, patch_ops(patch)) == Some(patch.apply(doc, unit)),
{
    let pos = patch.position as int;
    let len = patch.delete_length as int;
    let text = patch.insert_text;
    lemma_edited(doc, unit, pos, len, text);
    lemma_offset_in_range(doc, unit, pos);
    let k = index_at(doc, unit, pos);
    let gone = deleted(doc, unit, pos, len);
    let deletion = OpModel::Delete { position: patch.position, length: patch.delete_length };
    let insertion = OpModel::Insert { position: patch.position, text };
    if len == 0 {
        assert(gone =~= doc);
    }
    if text.len() == 0 {
        assert(inserted(gone, unit, pos, text) =~= gone);
    }
    reveal_with_fuel(replay_ops, 3);
    if len > 0 && text.len() > 0 {
        assert(patch_ops(patch) =~= seq![deletion, insertion]);
        assert(seq![deletion, insertion].drop_last() =~= seq![deletion]);
        assert(seq![deletion].drop_last() =~= Seq::empty());
    } else if len > 0 {
        assert(patch_ops(patch) =~= seq![deletion]);
        assert(seq![deletion].drop_last() =~= Seq::empty());
    } else if text.len() > 0 {
        assert(patch_ops(patch) =~= seq![insertion]);
        assert(seq![insertion].drop_last() =~= Seq::empty());
    } else {
        assert(patch_ops(patch) =~= Seq::empty());
    }
}

/// Patches that can be replayed on `doc` give the text that their
/// operations give.
pub proof fn lemma_flattened_replay(doc: Seq<char>, unit: PositionUnit, patches: Seq<PatchModel>)
    requires
        replay(doc, unit, patches) is Some,
    ensures
        replay_ops(doc, unit, flattened(patches)) == replay(doc, unit, patches),
    decreases patches.len(),
{
    if patches.len() > 0 {
        let stem = patches.drop_last();
        lemma_flattened_replay(doc, unit, stem);
        let before = replay(doc, unit, stem)->0;
        lemma_patch_ops_replay(before, unit, patches.last());
        lemma_replay_ops_concat(doc, unit, flattened(stem), patch_ops(patches.last()));
    }
}

/// The operations of patches whose texts are as long in units as in
/// characters insert such texts only.
pub proof fn lemma_flattened_plain(patches: Seq<PatchModel>, unit: PositionUnit)
    requires
        forall|i: int|
            0 <= i < patches.len() ==> plain_text((#[trigger] patches[i]).insert_text, unit),
    ensures
        plain_inserts(flattened(patches), unit),
    decreases patches.len(),
{
    if patches.len() > 0 {
        let stem = patches.drop_last();
        assert forall|i: int| 0 <= i < stem.len() implies plain_text(
            (#[trigger] stem[i]).insert_text,
            unit,
        ) by {
            assert(stem[i] == patches[i]);
        }
        lemma_flattened_plain(stem, unit);
        let last = patches.last();
        assert(plain_text(last.insert_text, unit));
        assert forall|i: int| 0 <= i < flattened(patches).len() implies (
        #[trigger] flattened(patches)[i]).plain(unit) by {
            if i < flattened(stem).len() {
                assert(flattened(patches)[i] == flattened(stem)[i]);
            } else {
                assert(flattened(patches)[i] == patch_ops(last)[i - flattened(stem).len()]);
            }
        }
    }
}

/// The coalesced operations of a well-formed trace turn its start content
/// into its end content, as the trace itself does. In bytes this needs the
/// inserted texts to be ASCII: the merge of insertions counts characters.
pub proof fn theorem_coalesce_equivalent(trace: Trace)
    requires
        trace.well_formed(),
        trace.plain_texts(),
    ensures
        replay_ops(trace.start_content@, trace.position_unit, flattened(trace.patches())) == Some(
            trace.end_content@,
        ),
        replay_ops(
            trace.start_content@,
            trace.position_unit,
            coalesced(flattened(trace.patches())),
        ) == Some(trace.end_content@),
{
    lemma_flattened_replay(trace.start_content@, trace.position_unit, trace.patches());
    lemma_flattened_plain(trace.patches(), trace.position_unit);
    theorem_coalesced_replay(
        trace.start_content@,
        trace.position_unit,
        flattened(trace.patches()),
    );
}

/// Coalescing never adds operations.
pub proof fn lemma_coalesced_len(ops: Seq<OpModel>)
    ensures
        coalesced(ops).len() <= ops.len(),
        ops.len() > 0 ==> coalesced(ops).len() > 0,
    decreases ops.len(),
{
    if ops.len() > 0 {
        lemma_coalesced_len(ops.drop_last());
    }
}

/// A patch replaces text where it both deletes and inserts: it then counts
/// for two operations.
pub open spec fn replaces(patch: PatchModel) -> bool {
    patch.delete_length > 0 && patch.insert_text.len() > 0
}

/// The number of patches among `patches` that replace text.
pub open spec fn replacements(patches: Seq<PatchModel>) -> nat
    decreases patches.len(),
{
    if patches.len() == 0 {
        0
    } else {
        replacements(patches.drop_last()) + if replaces(patches.last()) {
            1nat
        } else {
            0nat
        }
    }
}

/// Patches give one operation each at most, and one more for each that
/// replaces text.
pub proof fn lemma_flattened_len(patches: Seq<PatchModel>)
    ensures
        flattened(patches).len() <= patches.len() + replacements(patches),
        replacements(patches) <= patches.len(),
        (forall|i: int| 0 <= i < patches.len() ==> !replaces(#[trigger] patches[i]))
            ==> replacements(patches) == 0,
    decreases patches.len(),
{
    if patches.len() > 0 {
        let stem = patches.drop_last();
        lemma_flattened_len(stem);
        if forall|i: int| 0 <= i < patches.len() ==> !replaces(#[trigger] patches[i]) {
            assert forall|i: int| 0 <= i < stem.len() implies !replaces(#[trigger] stem[i]) by {
                assert(stem[i] == patches[i]);
            }
            assert(!replaces(patches.last()));
        }
    }
}

/// The coalesced operations are no more than the operations of the
/// patches: no more than the patches and those among them that replace
/// text, and so no more than the patches where none of them does.
pub proof fn theorem_coalesce_count(patches: Seq<PatchModel>)
    ensures
        coalesced(flattened(patches)).len() <= flattened(patches).len(),
        coalesced(flattened(patches)).len() <= patches.len() + replacements(patches),
        (forall|i: int| 0 <= i < patches.len() ==> !replaces(#[trigger] patches[i]))
            ==> coalesced(flattened(patches)).len() <= patches.len(),
{
    lemma_coalesced_len(flattened(patches));
    lemma_flattened_len(patches);
}

/// No operation of `ops` continues the one before it.
pub open spec fn settled(ops: Seq<OpModel>) -> bool {
    forall|i: int| 0 < i < ops.len() ==> !(#[trigger] ops[i - 1]).merges_with(ops[i])
}

/// Coalescing leaves `ops` as they are exactly where no operation continues
/// the one before it.
pub proof fn lemma_fixed_iff_settled(ops: Seq<OpModel>)
    ensures
        coalesced(ops) == ops <==> settled(ops),
    decreases ops.len(),
{
    if ops.len() > 0 {
        let stem = ops.drop_last();
        let n = stem.len() as int;
        lemma_fixed_iff_settled(stem);
        lemma_coalesced_len(stem);
        if settled(ops) {
            assert forall|i: int| 0 < i < stem.len() implies !(#[trigger] stem[i
                - 1]).merges_with(stem[i]) by {
                assert(stem[i - 1] == ops[i - 1]);
                assert(!ops[i - 1].merges_with(ops[i]));
            }
            if n > 0 {
                assert(!ops[n - 1].merges_with(ops[n]));
            }
            assert(coalesced(ops) =~= ops);
        }
        if coalesced(ops) == ops {
            let out = coalesced(stem);
            assert(out.len() == n);
            assert(!(out.len() > 0 && out.last().merges_with(ops.last())));
            assert(out =~= out.push(ops.last()).drop_last());
            assert(out =~= stem);
            assert forall|i: int| 0 < i < ops.len() implies !(#[trigger] ops[i - 1]).merges_with(
                ops[i],
            ) by {
                if i < n {
                    assert(stem[i - 1] == ops[i - 1]);
                    assert(!stem[i - 1].merges_with(stem[i]));
                }
            }
        }
    } else {
        assert(coalesced(ops) =~= ops);
    }
}

/// Among coalesced operations only a deletion can continue the operation
/// before it, and only where that is a deletion too: an insertion never
/// does.
pub proof fn lemma_coalesced_pairs(ops: Seq<OpModel>)
    ensures
        forall|i: int|
            0 < i < coalesced(ops).len() && (#[trigger] coalesced(ops)[i - 1]).merges_with(
                coalesced(ops)[i],
            ) ==> coalesced(ops)[i - 1] is Delete && coalesced(ops)[i] is Delete,
    decreases ops.len(),
{
    if ops.len() > 0 {
        let out = coalesced(ops.drop_last());
        let op = ops.last();
        let next = coalesced(ops);
        lemma_coalesced_pairs(ops.drop_last());
        assert forall|i: int|
            0 < i < next.len() && (#[trigger] next[i - 1]).merges_with(next[i]) implies next[i
            - 1] is Delete && next[i] is Delete by {
            if i < out.len() - 1 {
                assert(next[i - 1] == out[i - 1] && next[i] == out[i]);
            } else if out.len() > 0 && out.last().merges_with(op) {
                assert(i == out.len() - 1);
                assert(next[i - 1] == out[i - 1]);
                if out[i - 1].merges_with(out[i]) {
                    assert(out[i - 1] is Delete && out[i] is Delete);
                }
            } else if i < out.len() {
                assert(next[i - 1] == out[i - 1] && next[i] == out[i]);
            }
        }
    }
}

/// Coalescing what has been coalesced gives the same operations again,
/// provided that none of them continues the one before it. That can only
/// fail for a deletion behind a deletion.
pub proof fn theorem_recoalesce_same(ops: Seq<OpModel>)
    requires
        settled(coalesced(ops)),
    ensures
        coalesced(coalesced(ops)) == coalesced(ops),
{
    lemma_fixed_iff_settled(coalesced(ops));
}

/// Where a coalesced deletion continues the deletion before it, coalescing
/// once more merges the two: the result is then shorter.
pub proof fn theorem_recoalesce_differs(ops: Seq<OpModel>)
    requires
        !settled(coalesced(ops)),
    ensures
        coalesced(coalesced(ops)) != coalesced(ops),
        coalesced(coalesced(ops)).len() < coalesced(ops).len(),
{
    lemma_fixed_iff_settled(coalesced(ops));
    lemma_coalesced_len(coalesced(ops));
    lemma_unsettled_shrinks(coalesced(ops));
}

/// Coalescing shortens a sequence in which some operation continues the one
/// before it.
pub proof fn lemma_unsettled_shrinks(ops: Seq<OpModel>)
    requires
        !settled(ops),
    ensures
        coalesced(ops).len() < ops.len(),
    decreases ops.len(),
{
    lemma_fixed_iff_settled(ops);
    lemma_coalesced_len(ops);
    if ops.len() > 0 {
        let stem = ops.drop_last();
        lemma_coalesced_len(stem);
        if coalesced(ops).len() == ops.len() {
            let out = coalesced(stem);
            assert(out.len() == stem.len());
            if !settled(stem) {
                lemma_unsettled_shrinks(stem);
            }
            lemma_fixed_iff_settled(stem);
            assert(out == stem);
            assert(coalesced(ops) =~= ops);
        }
    }
}

impl OpModel {
    /// The patch that does what the operation does, and nothing else.
    pub open spec fn as_patch(self) -> PatchModel {
        match self {
            OpModel::Insert { position, text } => PatchModel {
                position,
                delete_length: 0,
                insert_text: text,
            },
            OpModel::Delete { position, length } => PatchModel {
                position,
                delete_length: length,
                insert_text: Seq::empty(),
            },
        }
    }

    /// The operation changes the text: it inserts or deletes something.
    pub open spec fn effective(self) -> bool {
        match self {
            OpModel::Insert { text, .. } => text.len() > 0,
            OpModel::Delete { length, .. } => length > 0,
        }
    }
}

/// Every one of `ops` inserts or deletes something.
pub open spec fn all_effective(ops: Seq<OpModel>) -> bool {
    forall|i: int| 0 <= i < ops.len() ==> (#[trigger] ops[i]).effective()
}

/// Operations that each change the text are the operations of the patches
/// that stand for them one by one.
pub proof fn lemma_flattened_as_patches(ops: Seq<OpModel>)
    requires
        all_effective(ops),
    ensures
        flattened(ops.map_values(|op: OpModel| op.as_patch())) == ops,
    decreases ops.len(),
{
    let patches = ops.map_values(|op: OpModel| op.as_patch());
    if ops.len() > 0 {
        let stem = ops.drop_last();
        assert forall|i: int| 0 <= i < stem.len() implies (#[trigger] stem[i]).effective() by {
            assert(stem[i] == ops[i]);
        }
        lemma_flattened_as_patches(stem);
        assert(patches.drop_last() =~= stem.map_values(|op: OpModel| op.as_patch()));
        assert(ops.last().effective());
        assert(patch_ops(patches.last()) =~= seq![ops.last()]);
        assert(flattened(patches) =~= ops);
    } else {
        assert(flattened(patches) =~= ops);
    }
}

/// The operations of patches each change the text, and so do the
/// coalesced ones.
pub proof fn lemma_coalesced_effective(patches: Seq<PatchModel>)
    ensures
        all_effective(flattened(patches)),
        all_effective(coalesced(flattened(patches))),
{
    lemma_flattened_effective(patches);
    lemma_coalesced_keeps_effective(flattened(patches));
}

proof fn lemma_flattened_effective(patches: Seq<PatchModel>)
    ensures
        all_effective(flattened(patches)),
    decreases patches.len(),
{
    if patches.len() > 0 {
        let stem = patches.drop_last();
        lemma_flattened_effective(stem);
        assert forall|i: int| 0 <= i < flattened(patches).len() implies (#[trigger] flattened(
            patches,
        )[i]).effective() by {
            if i < flattened(stem).len() {
                assert(flattened(patches)[i] == flattened(stem)[i]);
            } else {
                assert(flattened(patches)[i] == patch_ops(patches.last())[i - flattened(
                    stem,
                ).len()]);
            }
        }
    }
}

proof fn lemma_coalesced_keeps_effective(ops: Seq<OpModel>)
    requires
        all_effective(ops),
    ensures
        all_effective(coalesced(ops)),
    decreases ops.len(),
{
    if ops.len() > 0 {
        let stem = ops.drop_last();
        assert forall|i: int| 0 <= i < stem.len() implies (#[trigger] stem[i]).effective() by {
            assert(stem[i] == ops[i]);
        }
        lemma_coalesced_keeps_effective(stem);
        let out = coalesced(stem);
        assert(ops.last().effective());
        assert forall|i: int| 0 <= i < coalesced(ops).len() implies (#[trigger] coalesced(
            ops,
        )[i]).effective() by {
            if i < out.len() - 1 {
                assert(coalesced(ops)[i] == out[i]);
            } else if i < out.len() && !out.last().merges_with(ops.last()) {
                assert(coalesced(ops)[i] == out[i]);
            } else if i == out.len() - 1 {
                assert(out[i].effective());
            }
        }
    }
}

/// Coalescing is stable: the coalesced operations of patches, taken as
/// patches of one operation each and coalesced again, are what they were,
/// provided that none of them continues the one before it.
pub proof fn theorem_recoalesce_trace(patches: Seq<PatchModel>)
    requires
        settled(coalesced(flattened(patches))),
    ensures
        coalesced(
            flattened(coalesced(flattened(patches)).map_values(|op: OpModel| op.as_patch())),
        ) == coalesced(flattened(patches)),
{
    lemma_coalesced_effective(patches);
    lemma_flattened_as_patches(coalesced(flattened(patches)));
    theorem_recoalesce_same(flattened(patches));
}

/// Coalescing the operations of insertions only is stable: merging again
/// changes nothing.
pub proof fn theorem_recoalesce_insertions(ops: Seq<OpModel>)
    requires
        forall|i: int| 0 <= i < ops.len() ==> (#[trigger] ops[i]) is Insert,
    ensures
        coalesced(coalesced(ops)) == coalesced(ops),
{
    lemma_coalesced_inserts(ops);
    lemma_coalesced_pairs(ops);
    theorem_recoalesce_same(ops);
}

/// Insertions coalesce into insertions.
proof fn lemma_coalesced_inserts(ops: Seq<OpModel>)
    requires
        forall|i: int| 0 <= i < ops.len() ==> (#[trigger] ops[i]) is Insert,
    ensures
        forall|i: int| 0 <= i < coalesced(ops).len() ==> (#[trigger] coalesced(ops)[i]) is Insert,
    decreases ops.len(),
{
    if ops.len() > 0 {
        let stem = ops.drop_last();
        assert forall|i: int| 0 <= i < stem.len() implies (#[trigger] stem[i]) is Insert by {
            assert(stem[i] == ops[i]);
        }
        lemma_coalesced_inserts(stem);
        let out = coalesced(stem);
        assert(ops.last() is Insert);
        assert forall|i: int| 0 <= i < coalesced(ops).len() implies (#[trigger] coalesced(
            ops,
        )[i]) is Insert by {
            if i < out.len() - 1 {
                assert(coalesced(ops)[i] == out[i]);
            } else if i < out.len() && !out.last().merges_with(ops.last()) {
                assert(coalesced(ops)[i] == out[i]);
            }
        }
    }
}

} // verus!
