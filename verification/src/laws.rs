//! The engine's global guarantees, stated and proved over the model.
//!
//! Each law is phrased over `DebuggerView` values as the navigation and
//! diff contracts describe them, so it applies to every reachable state
//! of the engine.

use vstd::prelude::*;
use crate::debugger::{
    diff_model, has_baseline, has_key, invalidated, lemma_baseline_idx, lemma_find_idx,
    snapshot, BaselineView, DebuggerView, DiffError, wf,
};
use crate::protocol::{diff_spec, DiffView};
use crate::replica::ReplicaView;

verus! {

/// A participant's reconstructed state is a pure function of the log
/// prefix the cursor has passed: two well-formed engines over the same
/// schedule and at the same cursor position hold bit-identical state
/// stores and checkpoint stacks, whatever navigation brought each there.
pub proof fn lemma_state_function_of_position(d1: DebuggerView, d2: DebuggerView)
    requires
        wf(d1),
        wf(d2),
        d1.sched == d2.sched,
        d1.cursor == d2.cursor,
    ensures
        d1.entries == d2.entries,
        d1.history == d2.history,
{
}

/// Stepping forward `k` times and then backward `k` times restores
/// every participant's state exactly.  `d0` is the starting engine with
/// `k` steps remaining; `d1` is what the forward moves leave (their
/// contract: cursor advanced by `k`); `d2` is what the backward moves
/// then leave (cursor back by `k`).  The store and checkpoints of `d2`
/// are bit-identical to those of `d0`.
pub proof fn lemma_step_round_trip(d0: DebuggerView, d1: DebuggerView, d2: DebuggerView, k: nat)
    requires
        wf(d0),
        wf(d1),
        wf(d2),
        d1.sched == d0.sched,
        d2.sched == d0.sched,
        d0.cursor + k <= d0.sched.steps.len(),
        d1.cursor == d0.cursor + k,
        d2.cursor == d1.cursor - k,
    ensures
        d2.entries == d0.entries,
        d2.history == d0.history,
{
    lemma_state_function_of_position(d0, d2);
}

/// Comparing a state against itself reports no difference.
pub proof fn lemma_diff_self_empty(d: DebuggerView)
    ensures
        forall|i: int|
            0 <= i < d.entries.len() ==> (#[trigger] diff_spec(
                d.entries[i].state,
                d.entries[i].state,
            )).is_empty(),
{
}

/// Immediately after `start_diff`, the diff of any known participant
/// reports no difference: the baselines are exactly the snapshot of the
/// current entries, so each participant is compared against itself.
pub proof fn lemma_diff_empty_after_start(d: DebuggerView, p: ReplicaView)
    requires
        wf(d),
        has_key(d.entries, p),
        d.baselines == snapshot(d.entries, d.cursor),
    ensures
        diff_model(d, p) matches Ok(v) && v.is_empty(),
{
    let es = d.entries;
    let bs = d.baselines;
    let fi = crate::debugger::find_idx(es, p);
    lemma_find_idx(es, p);
    assert(bs.len() == es.len());
    assert forall|m: int| 0 <= m < fi implies bs[m].replica != p by {
        assert(bs[m].replica == es[m].replica);
    }
    assert(bs[fi].replica == p);
    crate::debugger::lemma_baseline_idx_of_first(bs, p, fi);
    assert(bs[fi].state == es[fi].state);
}

/// Invalidation at `c` deletes every baseline taken at or after `c`.
pub proof fn lemma_invalidated_all(bs: Seq<BaselineView>, c: int)
    requires
        forall|i: int| 0 <= i < bs.len() ==> #[trigger] bs[i].pos >= c,
    ensures
        invalidated(bs, c) == Seq::<BaselineView>::empty(),
    decreases bs.len(),
{
    if bs.len() > 0 {
        let t = bs.drop_first();
        assert forall|i: int| 0 <= i < t.len() implies #[trigger] t[i].pos >= c by {
            assert(t[i] == bs[i + 1]);
        }
        lemma_invalidated_all(t, c);
    }
}

/// After `start_diff` at engine state `d0`, advancing and then
/// reverting to or past `d0`'s position leaves no valid baseline: the
/// backward moves' contracts leave exactly `invalidated(snapshot, c)`
/// for the lowest position `c` reached, with `c` at or before the
/// baseline position, so a subsequent diff of any still-known
/// participant fails with `NoBaseline`.
pub proof fn lemma_diff_fails_after_revert_to_baseline(
    d0: DebuggerView,
    d2: DebuggerView,
    c: int,
    p: ReplicaView,
)
    requires
        wf(d0),
        wf(d2),
        c <= d0.cursor,
        d2.baselines == invalidated(snapshot(d0.entries, d0.cursor), c),
        has_key(d2.entries, p),
    ensures
        diff_model(d2, p) == Result::<DiffView, DiffError>::Err(DiffError::NoBaseline),
{
    let ss = snapshot(d0.entries, d0.cursor);
    assert forall|i: int| 0 <= i < ss.len() implies #[trigger] ss[i].pos >= c by {
        assert(ss[i].pos == d0.cursor);
    }
    lemma_invalidated_all(ss, c);
    assert(d2.baselines.len() == 0);
    lemma_baseline_idx(d2.baselines, p);
    assert(!has_baseline(d2.baselines, p));
}

} // verus!
