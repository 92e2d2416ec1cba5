//! Driving a container through a recorded trace, patch by patch or through
//! its coalesced operations.

use crate::coalesce::{coalesce, replay_ops, Op};
use crate::coalesce_proofs::theorem_coalesce_equivalent;
use crate::rope::{edit_unit, unit_of, Rope};
use crate::text::{lemma_measure_bounds, lemma_offset_unique, repeated, PositionUnit};
use crate::trace::{lemma_replay_before, lemma_replay_concat, replay, Trace};
use vstd::prelude::*;
use vstd::string::*;
use vstd::utf8::encode_utf8;

verus! {

/// Why a trace was not run.
#[derive(Clone, Copy, Debug, PartialEq, Eq, Structural)]
pub enum ReplayError {
    /// The trace counts positions in another unit than the container does.
    UnitMismatch,
}

/// The bytes that a container of `measured` bytes takes beyond the
/// `content` bytes of its text.
pub fn overhead_bytes(measured: usize, content: usize) -> (extra: usize)
    requires
        content <= measured,
    ensures
        extra == measured - content,
{
    measured - content
}

/// A container that holds `text`.
pub fn seeded<R: Rope>(text: &str) -> (rope: R)
    ensures
        rope.text() == text@,
{
    let mut rope = R::new();
    proof {
        lemma_offset_unique(rope.text(), unit_of::<R>(), 0, 0);
        assert(crate::text::splice(Seq::<char>::empty(), 0, text@) =~= text@);
    }
    rope.insert_at(0, text);
    rope
}

/// Runs every patch of `trace`, in order, on `rope`.
pub fn run_patches<R: Rope>(rope: &mut R, trace: &Trace)
    requires
        replay(old(rope).text(), unit_of::<R>(), trace.patches()) is Some,
    ensures
        Some(final(rope).text()) == replay(old(rope).text(), unit_of::<R>(), trace.patches()),
{
    let refs = trace.patch_refs();
    let ghost unit = unit_of::<R>();
    let ghost all = trace.patches();
    let ghost start = rope.text();
    let mut i: usize = 0;
    proof {
        assert(all.take(0) =~= Seq::empty());
    }
    while i < refs.len()
        invariant
            0 <= i <= refs.len(),
            unit == unit_of::<R>(),
            refs.deep_view() == all,
            replay(start, unit, all) is Some,
            replay(start, unit, all.take(i as int)) == Some(rope.text()),
        decreases refs.len() - i,
    {
        let patch = refs[i];
        proof {
            assert(all.take(i + 1).drop_last() =~= all.take(i as int));
            assert(all[i as int] == patch@);
            if replay(start, unit, all.take(i + 1)) is None {
                assert(all =~= all.take(i + 1) + all.skip(i + 1));
                lemma_replay_concat(start, unit, all.take(i + 1), all.skip(i + 1));
            }
        }
        rope.edit_at(patch.position, patch.delete_length, patch.insert_text.as_str());
        i += 1;
    }
    proof {
        assert(all.take(i as int) =~= all);
    }
}

/// Runs every patch of `trace`, in order, on a new container that holds
/// the start content. A trace in another unit than the container's is
/// refused before anything is run.
pub fn run_trace<R: Rope>(trace: &Trace) -> (out: Result<R, ReplayError>)
    requires
        trace.well_formed(),
    ensures
        out is Err <==> trace.position_unit != unit_of::<R>(),
        out matches Ok(rope) ==> rope.text() == trace.end_content@,
{
    if trace.position_unit != edit_unit::<R>() {
        return Err(ReplayError::UnitMismatch);
    }
    let mut rope: R = seeded(trace.start_content.as_str());
    run_patches(&mut rope, trace);
    Ok(rope)
}

/// Builds a text of about `size` bytes by running a trace that starts from
/// nothing again and again on one container: as often as its end content
/// goes into `size`. Every run puts the end content before what is there.
pub fn build_from_edits<R: Rope>(trace: &Trace, size: usize) -> (out: Result<R, ReplayError>)
    requires
        trace.well_formed(),
        trace.start_content@.len() == 0,
        trace.end_content@.len() > 0,
    ensures
        out is Err <==> trace.position_unit != unit_of::<R>(),
        out matches Ok(rope) ==> rope.text() == repeated(
            trace.end_content@,
            (size as int / encode_utf8(trace.end_content@).len() as int) as nat,
        ),
{
    if trace.position_unit != edit_unit::<R>() {
        return Err(ReplayError::UnitMismatch);
    }
    let len: usize = trace.end_content.as_str().as_bytes().len();
    proof {
        lemma_measure_bounds(trace.end_content@, PositionUnit::Byte);
    }
    let times: usize = size / len;
    let mut rope = R::new();
    let mut done: usize = 0;
    while done < times
        invariant
            0 <= done <= times,
            trace.well_formed(),
            trace.position_unit == unit_of::<R>(),
            trace.start_content@.len() == 0,
            rope.text() == repeated(trace.end_content@, done as nat),
        decreases times - done,
    {
        proof {
            lemma_replay_before(
                trace.start_content@,
                rope.text(),
                trace.position_unit,
                trace.patches(),
            );
            assert(trace.start_content@ + rope.text() =~= rope.text());
        }
        run_patches(&mut rope, trace);
        done += 1;
    }
    Ok(rope)
}

/// Runs `ops`, in order, on a new container that holds `start`.
pub fn run_ops<R: Rope>(ops: &Vec<Op>, start: &str) -> (rope: R)
    requires
        replay_ops(start@, unit_of::<R>(), ops.deep_view()) is Some,
    ensures
        Some(rope.text()) == replay_ops(start@, unit_of::<R>(), ops.deep_view()),
{
    let mut rope: R = seeded(start);
    let ghost unit = unit_of::<R>();
    let ghost all = ops.deep_view();
    let mut i: usize = 0;
    proof {
        assert(all.take(0) =~= Seq::empty());
    }
    while i < ops.len()
        invariant
            0 <= i <= ops.len(),
            unit == unit_of::<R>(),
            ops.deep_view() == all,
            replay_ops(start@, unit, all) is Some,
            replay_ops(start@, unit, all.take(i as int)) == Some(rope.text()),
        decreases ops.len() - i,
    {
        proof {
            assert(all.take(i + 1).drop_last() =~= all.take(i as int));
            assert(all[i as int] == ops[i as int]@);
            if replay_ops(start@, unit, all.take(i + 1)) is None {
                assert(all =~= all.take(i + 1) + all.skip(i + 1));
                crate::coalesce_proofs::lemma_replay_ops_concat(
                    start@,
                    unit,
                    all.take(i + 1),
                    all.skip(i + 1),
                );
            }
        }
        match &ops[i] {
            Op::Insert(position, text) => {
                rope.insert_at(*position, text.as_str());
            },
            Op::Delete(position, length) => {
                rope.del_at(*position, *length);
            },
        }
        i += 1;
    }
    proof {
        assert(all.take(i as int) =~= all);
    }
    rope
}

/// Coalesces `trace` and runs the merged operations on a new container
/// that holds the start content: the text is then the end content, as
/// after running the trace patch by patch.
pub fn run_coalesced<R: Rope>(trace: &Trace) -> (out: Result<R, ReplayError>)
    requires
        trace.well_formed(),
        trace.plain_texts(),
    ensures
        out is Err <==> trace.position_unit != unit_of::<R>(),
        out matches Ok(rope) ==> rope.text() == trace.end_content@,
{
    let unit = edit_unit::<R>();
    if trace.position_unit != unit {
        return Err(ReplayError::UnitMismatch);
    }
    let ops = coalesce(trace);
    proof {
        theorem_coalesce_equivalent(*trace);
    }
    Ok(run_ops(&ops, trace.start_content.as_str()))
}

} // verus!
