//! Atomic operations derived from patches, and the merging of adjacent
//! operations of one kind into a shorter sequence with the same effect.

use crate::text::{can_delete, deleted, has_offset, inserted, PositionUnit};
use crate::trace::{Patch, PatchModel, Trace};
use vstd::prelude::*;
use vstd::string::*;

verus! {

/// An atomic edit: an insertion of text or a deletion of a range.
#[derive(Clone, Debug, PartialEq, Eq)]
pub enum Op {
    /// Insert the text at the position.
    Insert(usize, String),
    /// Delete, at the position, as many units as the second field says.
    Delete(usize, usize),
}

/// An operation as a mathematical value.
pub enum OpModel {
    Insert { position: nat, text: Seq<char> },
    Delete { position: nat, length: nat },
}

impl View for Op {
    type V = OpModel;

    open spec fn view(&self) -> OpModel {
        match self {
            Op::Insert(position, text) => OpModel::Insert {
                position: *position as nat,
                text: text@,
            },
            Op::Delete(position, length) => OpModel::Delete {
                position: *position as nat,
                length: *length as nat,
            },
        }
    }
}

impl DeepView for Op {
    type V = OpModel;

    open spec fn deep_view(&self) -> OpModel {
        self@
    }
}

impl Op {
    /// The patch that does what the operation does, and nothing else.
    pub fn as_patch(&self) -> (patch: Patch)
        ensures
            patch@ == self@.as_patch(),
    {
        match self {
            Op::Insert(position, text) => Patch {
                position: *position,
                delete_length: 0,
                insert_text: text.clone(),
            },
            Op::Delete(position, length) => Patch {
                position: *position,
                delete_length: *length,
                insert_text: String::new(),
            },
        }
    }
}

impl OpModel {
    /// The operation stays within `doc`.
    pub open spec fn applies_to(self, doc: Seq<char>, unit: PositionUnit) -> bool {
        match self {
            OpModel::Insert { position, .. } => has_offset(doc, unit, position as int),
            OpModel::Delete { position, length } => can_delete(
                doc,
                unit,
                position as int,
                length as int,
            ),
        }
    }

    /// `doc` after the operation.
    pub open spec fn apply(self, doc: Seq<char>, unit: PositionUnit) -> Seq<char> {
        match self {
            OpModel::Insert { position, text } => inserted(doc, unit, position as int, text),
            OpModel::Delete { position, length } => deleted(
                doc,
                unit,
                position as int,
                length as int,
            ),
        }
    }

    /// The operation continues `self`: an insertion that starts where the
    /// text of `self` ends, or a deletion that starts where `self` starts or
    /// ends there. The merged length of two deletions has to fit a `usize`.
    pub open spec fn merges_with(self, next: OpModel) -> bool {
        match (self, next) {
            (
                OpModel::Insert { position: p0, text: t0 },
                OpModel::Insert { position: p, .. },
            ) => p == p0 + t0.len(),
            (
                OpModel::Delete { position: p0, length: n0 },
                OpModel::Delete { position: p, length: n },
            ) => (p == p0 || p + n == p0) && n0 + n <= usize::MAX,
            _ => false,
        }
    }

    /// The one operation that does what `self` and then `next` do, where
    /// `next` continues `self`.
    pub open spec fn merged_with(self, next: OpModel) -> OpModel {
        match (self, next) {
            (
                OpModel::Insert { position: p0, text: t0 },
                OpModel::Insert { text: t, .. },
            ) => OpModel::Insert { position: p0, text: t0 + t },
            (
                OpModel::Delete { position: p0, length: n0 },
                OpModel::Delete { position: p, length: n },
            ) => OpModel::Delete { position: if p == p0 {
                p0
            } else {
                p
            }, length: n0 + n },
            _ => next,
        }
    }
}

/// `doc` after all of `ops`, in order; `None` where one of them does not
/// stay within the text it meets.
pub open spec fn replay_ops(doc: Seq<char>, unit: PositionUnit, ops: Seq<OpModel>) -> Option<
    Seq<char>,
>
    decreases ops.len(),
{
    if ops.len() == 0 {
        Some(doc)
    } else {
        match replay_ops(doc, unit, ops.drop_last()) {
            Some(before) => if ops.last().applies_to(before, unit) {
                Some(ops.last().apply(before, unit))
            } else {
                None
            },
            None => None,
        }
    }
}

/// The operations of one patch: its deletion, if it deletes anything, then
/// its insertion, if it inserts anything.
pub open spec fn patch_ops(patch: PatchModel) -> Seq<OpModel> {
    let deletion = if patch.delete_length > 0 {
        seq![OpModel::Delete { position: patch.position, length: patch.delete_length }]
    } else {
        Seq::empty()
    };
    let insertion = if patch.insert_text.len() > 0 {
        seq![OpModel::Insert { position: patch.position, text: patch.insert_text }]
    } else {
        Seq::empty()
    };
    deletion + insertion
}

/// The operations of all of `patches`, in order.
pub open spec fn flattened(patches: Seq<PatchModel>) -> Seq<OpModel>
    decreases patches.len(),
{
    if patches.len() == 0 {
        Seq::empty()
    } else {
        flattened(patches.drop_last()) + patch_ops(patches.last())
    }
}

/// `out` with `op` merged into its last operation where `op` continues it,
/// and added behind it otherwise.
pub open spec fn merge_step(out: Seq<OpModel>, op: OpModel) -> Seq<OpModel> {
    if out.len() > 0 && out.last().merges_with(op) {
        out.drop_last().push(out.last().merged_with(op))
    } else {
        out.push(op)
    }
}

/// `ops` with each operation merged into the one before it wherever it
/// continues what has been merged so far.
pub open spec fn coalesced(ops: Seq<OpModel>) -> Seq<OpModel>
    decreases ops.len(),
{
    if ops.len() == 0 {
        Seq::empty()
    } else {
        merge_step(coalesced(ops.drop_last()), ops.last())
    }
}

/// Merges `op` into the last operation of `out` where it continues it, and
/// adds it behind otherwise.
pub fn merge(out: &mut Vec<Op>, op: Op)
    ensures
        final(out).deep_view() == merge_step(old(out).deep_view(), op@),
{
    let ghost before = out.deep_view();
    match out.pop() {
        None => {
            out.push(op);
        },
        Some(last) => {
            let ghost stem = out.deep_view();
            assert(stem =~= before.drop_last());
            assert(last@ == before.last());
            match (last, op) {
                (Op::Insert(p0, t0), Op::Insert(p, t)) => {
                    if p0.checked_add(t0.as_str().unicode_len()) == Some(p) {
                        let mut text = t0;
                        text.append(t.as_str());
                        out.push(Op::Insert(p0, text));
                    } else {
                        out.push(Op::Insert(p0, t0));
                        out.push(Op::Insert(p, t));
                    }
                },
                (Op::Delete(p0, n0), Op::Delete(p, n)) => {
                    let total = n0.checked_add(n);
                    if p == p0 && total.is_some() {
                        out.push(Op::Delete(p0, total.unwrap()));
                    } else if p.checked_add(n) == Some(p0) && total.is_some() {
                        out.push(Op::Delete(p, total.unwrap()));
                    } else {
                        out.push(Op::Delete(p0, n0));
                        out.push(Op::Delete(p, n));
                    }
                },
                (last, op) => {
                    out.push(last);
                    out.push(op);
                },
            }
            assert(out.deep_view() =~= merge_step(before, op@));
        },
    }
    assert(out.deep_view() =~= merge_step(before, op@));
}

/// The operations of `trace`, patch by patch, with nothing merged.
pub fn flatten(trace: &Trace) -> (ops: Vec<Op>)
    ensures
        ops.deep_view() == flattened(trace.patches()),
{
    let refs = trace.patch_refs();
    let ghost all = trace.patches();
    let mut ops: Vec<Op> = Vec::new();
    let mut i: usize = 0;
    proof {
        assert(all.take(0) =~= Seq::empty());
        assert(ops.deep_view() =~= flattened(all.take(0)));
    }
    while i < refs.len()
        invariant
            0 <= i <= refs.len(),
            refs.deep_view() == all,
            ops.deep_view() == flattened(all.take(i as int)),
        decreases refs.len() - i,
    {
        let patch = refs[i];
        let ghost before = ops.deep_view();
        proof {
            assert(all.take(i + 1).drop_last() =~= all.take(i as int));
            assert(all[i as int] == patch@);
        }
        if patch.delete_length > 0 {
            ops.push(Op::Delete(patch.position, patch.delete_length));
        }
        if !patch.insert_text.as_str().is_empty() {
            ops.push(Op::Insert(patch.position, patch.insert_text.clone()));
        }
        proof {
            assert(ops.deep_view() =~= before + patch_ops(patch@));
        }
        i += 1;
    }
    proof {
        assert(all.take(i as int) =~= all);
    }
    ops
}

/// The operations of `trace` with adjacent operations merged: every
/// insertion that starts where the one before it ends, and every deletion
/// that starts where the one before it starts or ends there.
pub fn coalesce(trace: &Trace) -> (ops: Vec<Op>)
    ensures
        ops.deep_view() == coalesced(flattened(trace.patches())),
{
    let refs = trace.patch_refs();
    let ghost all = trace.patches();
    let mut ops: Vec<Op> = Vec::new();
    let mut i: usize = 0;
    proof {
        assert(all.take(0) =~= Seq::empty());
        assert(ops.deep_view() =~= coalesced(flattened(all.take(0))));
    }
    while i < refs.len()
        invariant
            0 <= i <= refs.len(),
            refs.deep_view() == all,
            ops.deep_view() == coalesced(flattened(all.take(i as int))),
        decreases refs.len() - i,
    {
        let patch = refs[i];
        let ghost flat = flattened(all.take(i as int));
        proof {
            assert(all.take(i + 1).drop_last() =~= all.take(i as int));
            assert(all[i as int] == patch@);
        }
        if patch.delete_length > 0 {
            let deletion = Op::Delete(patch.position, patch.delete_length);
            proof {
                assert(flat.push(deletion@).drop_last() =~= flat);
            }
            merge(&mut ops, deletion);
        }
        let ghost mid = if patch.delete_length > 0 {
            flat.push(OpModel::Delete { position: patch@.position, length: patch@.delete_length })
        } else {
            flat
        };
        assert(ops.deep_view() == coalesced(mid));
        if !patch.insert_text.as_str().is_empty() {
            let insertion = Op::Insert(patch.position, patch.insert_text.clone());
            proof {
                assert(mid.push(insertion@).drop_last() =~= mid);
            }
            merge(&mut ops, insertion);
        }
        proof {
            let end = if patch@.insert_text.len() > 0 {
                mid.push(OpModel::Insert { position: patch@.position, text: patch@.insert_text })
            } else {
                mid
            };
            assert(end =~= flat + patch_ops(patch@));
        }
        i += 1;
    }
    proof {
        assert(all.take(i as int) =~= all);
    }
    ops
}

/// `ops` with adjacent operations merged, as [`coalesce`] merges those of a
/// trace.
pub fn coalesce_ops(ops: &Vec<Op>) -> (out: Vec<Op>)
    ensures
        out.deep_view() == coalesced(ops.deep_view()),
{
    let ghost all = ops.deep_view();
    let mut out: Vec<Op> = Vec::new();
    let mut i: usize = 0;
    proof {
        assert(all.take(0) =~= Seq::empty());
        assert(out.deep_view() =~= coalesced(all.take(0)));
    }
    while i < ops.len()
        invariant
            0 <= i <= ops.len(),
            all == ops.deep_view(),
            out.deep_view() == coalesced(all.take(i as int)),
        decreases ops.len() - i,
    {
        proof {
            assert(all.take(i + 1).drop_last() =~= all.take(i as int));
        }
        let op = match &ops[i] {
            Op::Insert(position, text) => Op::Insert(*position, text.clone()),
            Op::Delete(position, length) => Op::Delete(*position, *length),
        };
        merge(&mut out, op);
        i += 1;
    }
    proof {
        assert(all.take(i as int) =~= all);
    }
    out
}

} // verus!
