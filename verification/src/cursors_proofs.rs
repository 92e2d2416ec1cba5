//! Why both orders of insertion leave the same text, and how long it is.

use crate::cursors::{
    alternating_cut, alternating_fits, alternating_offset, alternating_phase,
    alternating_result, alternating_round, layout, marker, run, sequential_cut,
    sequential_fits, sequential_offset, sequential_phase, sequential_result, sequential_round,
    spread,
};
use crate::text::{cut, splice};
use vstd::prelude::*;
use vstd::utf8::{encode_utf8, is_ascii_chars, is_ascii_chars_encode_utf8};

verus! {

/// The characters that the cursors have inserted, all together.
pub open spec fn total(runs: Seq<nat>) -> nat
    decreases runs.len(),
{
    if runs.len() == 0 {
        0
    } else {
        total(runs.drop_last()) + runs.last()
    }
}

/// Round `round` in ascending order after `done` insertions: the cursors
/// before `done` have one character more than the others.
pub open spec fn ascending(cursors: nat, round: nat, done: nat) -> Seq<nat> {
    Seq::new(
        cursors,
        |m: int|
            if m < done {
                round + 1
            } else {
                round
            },
    )
}

/// Round `round` in descending order after `done` insertions: the last
/// `done` cursors have one character more than the others.
pub open spec fn descending(cursors: nat, round: nat, done: nat) -> Seq<nat> {
    Seq::new(
        cursors,
        |m: int|
            if m >= cursors - done {
                round + 1
            } else {
                round
            },
    )
}

/// Round `round` after `done` insertions where the order turns round after
/// every round.
pub open spec fn turning(cursors: nat, round: nat, done: nat) -> Seq<nat> {
    if round % 2 == 0 {
        ascending(cursors, round, done)
    } else {
        descending(cursors, round, done)
    }
}

proof fn lemma_mul_step(a: int, b: int, step: int)
    by (nonlinear_arith)
    requires
        0 <= a <= b,
        0 <= step,
    ensures
        0 <= a * step <= b * step,
        (a + 1) * step == a * step + step,
{
}

/// The first cursors have inserted no more than all of them.
pub proof fn lemma_total_grows(runs: Seq<nat>, j: int)
    requires
        0 <= j <= runs.len(),
    ensures
        total(runs.take(j)) <= total(runs),
    decreases runs.len(),
{
    if j < runs.len() {
        lemma_total_grows(runs.drop_last(), j);
        assert(runs.drop_last().take(j) =~= runs.take(j));
    } else {
        assert(runs.take(j) =~= runs);
    }
}

/// The layout is as long as the text and the inserted characters together.
pub proof fn lemma_layout_len(doc: Seq<char>, step: nat, runs: Seq<nat>)
    requires
        runs.len() > 0 ==> (runs.len() - 1) * step <= doc.len(),
    ensures
        layout(doc, step, runs).len() == doc.len() + total(runs),
    decreases runs.len(),
{
    let k = runs.len() as int;
    if k > 0 {
        if k > 1 {
            lemma_mul_step(k - 2, k - 1, step as int);
        }
        lemma_layout_len(doc.take((k - 1) * step), step, runs.drop_last());
    }
}

/// Inserting one character behind the run of cursor `j` lengthens that run
/// and leaves the rest of the layout as it is.
pub proof fn lemma_layout_insert(doc: Seq<char>, step: nat, runs: Seq<nat>, j: int)
    requires
        0 <= j < runs.len(),
        (runs.len() - 1) * step <= doc.len(),
    ensures
        j * step + total(runs.take(j + 1)) <= layout(doc, step, runs).len(),
        splice(layout(doc, step, runs), j * step + total(runs.take(j + 1)), marker()) == layout(
            doc,
            step,
            runs.update(j, runs[j] + 1),
        ),
    decreases runs.len(),
{
    let k = runs.len() as int;
    let at = (k - 1) * step;
    let head = doc.take(at);
    let tail = doc.skip(at);
    let stem = layout(head, step, runs.drop_last());
    let whole = layout(doc, step, runs);
    let more = runs.update(j, runs[j] + 1);
    let pos = j * step + total(runs.take(j + 1));
    if k > 1 {
        lemma_mul_step(k - 2, k - 1, step as int);
    }
    lemma_layout_len(head, step, runs.drop_last());
    lemma_layout_len(doc, step, runs);
    if j == k - 1 {
        assert(runs.take(j + 1) =~= runs);
        assert(more.drop_last() =~= runs.drop_last());
        assert(run(runs.last()) + marker() =~= run(more.last()));
        assert(splice(whole, pos, marker()) =~= stem + (run(runs.last()) + marker()) + tail);
    } else {
        lemma_layout_insert(head, step, runs.drop_last(), j);
        assert(runs.drop_last().take(j + 1) =~= runs.take(j + 1));
        lemma_total_grows(runs.drop_last(), j + 1);
        lemma_mul_step(j, k - 1, step as int);
        assert(pos <= stem.len());
        assert(more.drop_last() =~= runs.drop_last().update(j, runs[j] + 1));
        assert(splice(whole, pos, marker()) =~= splice(stem, pos, marker()) + run(runs.last())
            + tail);
    }
}

/// A product grows with its second factor.
pub proof fn lemma_mul_le(a: int, x: int, y: int)
    by (nonlinear_arith)
    requires
        0 <= a,
        0 <= x <= y,
    ensures
        0 <= a * x <= a * y,
        0 <= x * a <= y * a,
{
}

/// Multiplication distributes over a sum, and over one more.
pub proof fn lemma_mul_sum(a: int, x: int, y: int)
    by (nonlinear_arith)
    ensures
        a * (x + y) == a * x + a * y,
        (a + 1) * x == a * x + x,
{
}

/// Cursors that have inserted `each` characters each have inserted
/// `runs.len() * each` in all.
pub proof fn lemma_total_even(runs: Seq<nat>, each: nat)
    requires
        forall|m: int| 0 <= m < runs.len() ==> runs[m] == each,
    ensures
        total(runs) == runs.len() * each,
    decreases runs.len(),
{
    if runs.len() > 0 {
        lemma_total_even(runs.drop_last(), each);
        lemma_mul_sum(runs.len() - 1, each as int, 0);
    }
}

/// The text after all rounds is longer than the text before them by one
/// character for every cursor and round.
pub proof fn lemma_spread_len(doc: Seq<char>, step: nat, cursors: nat, rounds: nat)
    requires
        cursors > 0 ==> (cursors - 1) * step <= doc.len(),
    ensures
        spread(doc, step, cursors, rounds).len() == doc.len() + cursors * rounds,
{
    let runs = Seq::new(cursors, |m: int| rounds);
    lemma_layout_len(doc, step, runs);
    lemma_total_even(runs, rounds);
}

/// Cursors that have inserted at most `most` characters each have
/// inserted at most `runs.len() * most` in all.
pub proof fn lemma_total_bound(runs: Seq<nat>, most: nat)
    requires
        forall|m: int| 0 <= m < runs.len() ==> runs[m] <= most,
    ensures
        total(runs) <= runs.len() * most,
    decreases runs.len(),
{
    if runs.len() > 0 {
        lemma_total_bound(runs.drop_last(), most);
        lemma_mul_sum(runs.len() - 1, most as int, 0);
    }
}

/// In a round in ascending order, the insertion of cursor `i` falls behind
/// the run of that cursor and lengthens it.
pub proof fn lemma_ascending_step(doc: Seq<char>, step: nat, cursors: nat, round: nat, i: nat)
    requires
        i < cursors,
        (cursors - 1) * step <= doc.len(),
    ensures
        sequential_offset(i, step, round) <= layout(
            doc,
            step,
            ascending(cursors, round, i),
        ).len(),
        layout(doc, step, ascending(cursors, round, i)).len() <= doc.len() + cursors * (round
            + 1),
        splice(
            layout(doc, step, ascending(cursors, round, i)),
            sequential_offset(i, step, round) as int,
            marker(),
        ) == layout(doc, step, ascending(cursors, round, i + 1)),
{
    let runs = ascending(cursors, round, i);
    let at = i as int;
    lemma_layout_insert(doc, step, runs, at);
    assert(runs.take(at + 1).drop_last() =~= runs.take(at));
    lemma_total_even(runs.take(at), round + 1);
    lemma_mul_sum(at, step as int, round + 1 as int);
    assert(sequential_offset(i, step, round) == at * step + total(runs.take(at + 1)));
    assert(runs.update(at, runs[at] + 1) =~= ascending(cursors, round, i + 1));
    lemma_layout_len(doc, step, runs);
    lemma_total_bound(runs, round + 1);
}

/// In a round in descending order, the `i`-th insertion falls behind the
/// run of the cursor that makes it and lengthens that run.
pub proof fn lemma_descending_step(doc: Seq<char>, step: nat, cursors: nat, round: nat, i: nat)
    requires
        i < cursors,
        (cursors - 1) * step <= doc.len(),
        round % 2 == 1,
    ensures
        alternating_offset(cursors, i, step, round) <= layout(
            doc,
            step,
            descending(cursors, round, i),
        ).len(),
        layout(doc, step, descending(cursors, round, i)).len() <= doc.len() + cursors * (round
            + 1),
        splice(
            layout(doc, step, descending(cursors, round, i)),
            alternating_offset(cursors, i, step, round) as int,
            marker(),
        ) == layout(doc, step, descending(cursors, round, i + 1)),
{
    let j = cursors - 1 - i;
    let runs = descending(cursors, round, i);
    lemma_layout_insert(doc, step, runs, j);
    lemma_total_even(runs.take(j + 1), round);
    lemma_mul_sum(j, step as int, round as int);
    lemma_mul_sum(j, round as int, 0);
    assert(alternating_offset(cursors, i, step, round) == j * step + total(runs.take(j + 1)));
    assert(runs.update(j, runs[j] + 1) =~= descending(cursors, round, i + 1));
    lemma_layout_len(doc, step, runs);
    lemma_total_bound(runs, round + 1);
}

/// A round in ascending order lengthens the runs one after another, from
/// the first cursor on.
pub proof fn lemma_ascending_round(
    doc: Seq<char>,
    step: nat,
    cursors: nat,
    round: nat,
    done: nat,
)
    requires
        done <= cursors,
        cursors > 0 ==> (cursors - 1) * step <= doc.len(),
    ensures
        sequential_round(layout(doc, step, ascending(cursors, round, 0)), step, round, done)
            == layout(doc, step, ascending(cursors, round, done)),
    decreases done,
{
    if done > 0 {
        lemma_ascending_round(doc, step, cursors, round, (done - 1) as nat);
        lemma_ascending_step(doc, step, cursors, round, (done - 1) as nat);
    }
}

/// A round in descending order lengthens the runs one after another, from
/// the last cursor on.
pub proof fn lemma_descending_round(
    doc: Seq<char>,
    step: nat,
    cursors: nat,
    round: nat,
    done: nat,
)
    requires
        done <= cursors,
        cursors > 0 ==> (cursors - 1) * step <= doc.len(),
        round % 2 == 1,
    ensures
        alternating_round(
            layout(doc, step, descending(cursors, round, 0)),
            cursors,
            step,
            round,
            done,
        ) == layout(doc, step, descending(cursors, round, done)),
    decreases done,
{
    if done > 0 {
        lemma_descending_round(doc, step, cursors, round, (done - 1) as nat);
        lemma_descending_step(doc, step, cursors, round, (done - 1) as nat);
    }
}

/// In an even round the alternating order is the ascending one.
pub proof fn lemma_even_round(doc: Seq<char>, cursors: nat, step: nat, round: nat, done: nat)
    requires
        round % 2 == 0,
    ensures
        alternating_round(doc, cursors, step, round, done) == sequential_round(
            doc,
            step,
            round,
            done,
        ),
    decreases done,
{
    if done > 0 {
        lemma_even_round(doc, cursors, step, round, (done - 1) as nat);
    }
}

/// Rounds in ascending order leave `rounds` characters at every cursor.
pub proof fn theorem_sequential_spread(doc: Seq<char>, cursors: nat, step: nat, rounds: nat)
    requires
        cursors > 0 ==> (cursors - 1) * step <= doc.len(),
    ensures
        sequential_phase(doc, cursors, step, rounds) == spread(doc, step, cursors, rounds),
    decreases rounds,
{
    if rounds > 0 {
        let round = (rounds - 1) as nat;
        theorem_sequential_spread(doc, cursors, step, round);
        lemma_ascending_round(doc, step, cursors, round, cursors);
        assert(ascending(cursors, round, 0) =~= Seq::new(cursors, |m: int| round));
        assert(ascending(cursors, round, cursors) =~= Seq::new(cursors, |m: int| rounds));
    } else {
        assert(Seq::new(cursors, |m: int| rounds) =~= ascending(cursors, 0, 0));
        lemma_ascending_round(doc, step, cursors, 0, 0);
        lemma_layout_blank(doc, step, ascending(cursors, 0, 0));
    }
}

/// The inserted characters are ASCII: ASCII text stays ASCII.
pub proof fn lemma_layout_ascii(doc: Seq<char>, step: nat, runs: Seq<nat>)
    requires
        is_ascii_chars(doc),
        runs.len() > 0 ==> (runs.len() - 1) * step <= doc.len(),
    ensures
        is_ascii_chars(layout(doc, step, runs)),
    decreases runs.len(),
{
    let k = runs.len() as int;
    if k > 0 {
        if k > 1 {
            lemma_mul_step(k - 2, k - 1, step as int);
        }
        let at = (k - 1) * step;
        let stem = layout(doc.take(at), step, runs.drop_last());
        lemma_layout_ascii(doc.take(at), step, runs.drop_last());
        assert forall|i: int| 0 <= i < layout(doc, step, runs).len() implies '\0' <= (
        #[trigger] layout(doc, step, runs)[i]) <= '\u{7f}' by {
            if i < stem.len() {
                assert(layout(doc, step, runs)[i] == stem[i]);
            } else if i < stem.len() + runs.last() {
                assert(layout(doc, step, runs)[i] == 'b');
            } else {
                assert(layout(doc, step, runs)[i] == doc[i - stem.len() - runs.last() + at]);
            }
        }
    }
}

/// Taking as many characters out of the spread text as went in restores
/// its length in characters, and for ASCII text its length in bytes.
pub proof fn lemma_cut_restores_len(
    doc: Seq<char>,
    step: nat,
    cursors: nat,
    rounds: nat,
    from: int,
)
    requires
        cursors > 0 ==> (cursors - 1) * step <= doc.len(),
        0 <= from <= doc.len(),
    ensures
        cut(spread(doc, step, cursors, rounds), from, from + cursors * rounds).len() == doc.len(),
        is_ascii_chars(doc) ==> is_ascii_chars(
            cut(spread(doc, step, cursors, rounds), from, from + cursors * rounds),
        ) && encode_utf8(
            cut(spread(doc, step, cursors, rounds), from, from + cursors * rounds),
        ).len() == encode_utf8(doc).len(),
{
    lemma_spread_len(doc, step, cursors, rounds);
    if is_ascii_chars(doc) {
        lemma_layout_ascii(doc, step, Seq::new(cursors, |m: int| rounds));
        let after = cut(spread(doc, step, cursors, rounds), from, from + cursors * rounds);
        is_ascii_chars_encode_utf8(after);
        is_ascii_chars_encode_utf8(doc);
    }
}

/// A full pass of the sequential workload leaves a text as long as the one
/// it met: in characters always, in bytes for ASCII text.
pub proof fn theorem_sequential_round_trip(doc: Seq<char>, cursors: nat, step: nat, width: nat)
    requires
        sequential_fits(doc.len(), cursors, step, width),
    ensures
        sequential_result(doc, cursors, step, width).len() == doc.len(),
        is_ascii_chars(doc) ==> encode_utf8(sequential_result(doc, cursors, step, width)).len()
            == encode_utf8(doc).len(),
{
    lemma_mul_le(step as int, 1, cursors - 1);
    lemma_cut_restores_len(doc, step, cursors, width, sequential_cut(cursors, step));
}

/// A full pass of the alternating workload leaves a text as long as the
/// one it met: in characters always, in bytes for ASCII text.
pub proof fn theorem_alternating_round_trip(doc: Seq<char>, cursors: nat, step: nat, width: nat)
    requires
        alternating_fits(doc.len(), cursors, step, width),
    ensures
        alternating_result(doc, cursors, step, width).len() == doc.len(),
        is_ascii_chars(doc) ==> encode_utf8(alternating_result(doc, cursors, step, width)).len()
            == encode_utf8(doc).len(),
{
    if width % 2 == 1 {
        lemma_mul_le(step as int, 1, cursors - 1);
    }
    lemma_cut_restores_len(doc, step, cursors, width, alternating_cut(cursors, step, width));
}

/// Cursors that have inserted nothing leave the text as it is.
pub proof fn lemma_layout_blank(doc: Seq<char>, step: nat, runs: Seq<nat>)
    requires
        forall|m: int| 0 <= m < runs.len() ==> runs[m] == 0,
        runs.len() > 0 ==> (runs.len() - 1) * step <= doc.len(),
    ensures
        layout(doc, step, runs) == doc,
    decreases runs.len(),
{
    let k = runs.len() as int;
    if k > 0 {
        if k > 1 {
            lemma_mul_step(k - 2, k - 1, step as int);
        }
        let at = (k - 1) * step;
        lemma_layout_blank(doc.take(at), step, runs.drop_last());
        assert(doc.take(at) + run(0) + doc.skip(at) =~= doc);
    }
}

/// Rounds in alternating order leave `rounds` characters at every cursor.
pub proof fn theorem_alternating_spread(doc: Seq<char>, cursors: nat, step: nat, rounds: nat)
    requires
        cursors > 0 ==> (cursors - 1) * step <= doc.len(),
    ensures
        alternating_phase(doc, cursors, step, rounds) == spread(doc, step, cursors, rounds),
    decreases rounds,
{
    if rounds > 0 {
        let round = (rounds - 1) as nat;
        theorem_alternating_spread(doc, cursors, step, round);
        let before = spread(doc, step, cursors, round);
        if round % 2 == 0 {
            lemma_even_round(before, cursors, step, round, cursors);
            lemma_ascending_round(doc, step, cursors, round, cursors);
            assert(ascending(cursors, round, 0) =~= Seq::new(cursors, |m: int| round));
            assert(ascending(cursors, round, cursors) =~= Seq::new(cursors, |m: int| rounds));
        } else {
            lemma_descending_round(doc, step, cursors, round, cursors);
            assert(descending(cursors, round, 0) =~= Seq::new(cursors, |m: int| round));
            assert(descending(cursors, round, cursors) =~= Seq::new(cursors, |m: int| rounds));
        }
    } else {
        assert(Seq::new(cursors, |m: int| rounds) =~= ascending(cursors, 0, 0));
        lemma_layout_blank(doc, step, ascending(cursors, 0, 0));
    }
}

/// Both orders of insertion leave the same text: the same characters at
/// the same places, whatever the order in which they came.
pub proof fn theorem_strategies_agree(doc: Seq<char>, cursors: nat, step: nat, rounds: nat)
    requires
        cursors > 0 ==> (cursors - 1) * step <= doc.len(),
    ensures
        sequential_phase(doc, cursors, step, rounds) == alternating_phase(
            doc,
            cursors,
            step,
            rounds,
        ),
{
    theorem_sequential_spread(doc, cursors, step, rounds);
    theorem_alternating_spread(doc, cursors, step, rounds);
}

} // verus!
