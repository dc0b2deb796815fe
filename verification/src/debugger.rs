//! The replay engine: a cursor over the loaded schedule, the per-
//! participant state store it reconstructs, and the diff baselines.
//!
//! The load-bearing invariant is that the state store is a pure function
//! of the prefix of steps the cursor has passed: `wf` ties the store to
//! `store_at(steps, cursor)`, so every navigation path to the same cursor
//! position reconstructs bit-identical states.

use vstd::prelude::*;
use crate::protocol::{
    diff_states,
    apply_msg_spec, diff_spec, initial_state, rejects, Diff, DiffView, Envelope, EnvelopeView, Msg,
    ProtocolState, ProtocolStateView,
};
use crate::loader::{parse_schedule, parse_schedule_spec, LoadError};
use crate::replica::{replica_eq, Replica, ReplicaView};
use crate::schedule::{
    empty_schedule, is_frame_boundary, is_next_boundary, is_prev_boundary,
    lemma_next_boundary_pins, lemma_prev_boundary_pins, next_boundary, prev_boundary, sched_wf,
    FrameMeta, Schedule, ScheduleView,
};

verus! {

/// One participant's reconstructed state, keyed by its identity.
pub struct StoreEntry {
    pub replica: Replica,
    pub state: ProtocolState,
}

/// Mathematical view of a `StoreEntry`.
#[verifier::ext_equal]
pub struct EntryView {
    pub replica: ReplicaView,
    pub state: ProtocolStateView,
}

impl View for StoreEntry {
    type V = EntryView;

    open spec fn view(&self) -> EntryView {
        EntryView { replica: self.replica@, state: self.state@ }
    }
}

/// The per-step checkpoint: the addressed participant's state just
/// before the step was applied (`None` when the step created it), and
/// whether the protocol rules rejected the step's message.
pub struct HistEntry {
    pub prior: Option<ProtocolState>,
    pub rejected: bool,
}

/// Mathematical view of a `HistEntry`.
#[verifier::ext_equal]
pub struct HistView {
    pub prior: Option<ProtocolStateView>,
    pub rejected: bool,
}

impl View for HistEntry {
    type V = HistView;

    open spec fn view(&self) -> HistView {
        HistView {
            prior: match self.prior {
                Some(p) => Some(p@),
                None => None,
            },
            rejected: self.rejected,
        }
    }
}

/// A per-participant diff baseline: the cursor position at which it was
/// taken and the snapshot of the participant's state at that moment.
pub struct Baseline {
    pub replica: Replica,
    pub pos: usize,
    pub state: ProtocolState,
}

/// Mathematical view of a `Baseline`.
#[verifier::ext_equal]
pub struct BaselineView {
    pub replica: ReplicaView,
    pub pos: int,
    pub state: ProtocolStateView,
}

impl View for Baseline {
    type V = BaselineView;

    open spec fn view(&self) -> BaselineView {
        BaselineView { replica: self.replica@, pos: self.pos as int, state: self.state@ }
    }
}

/// Why a diff request fails.
#[derive(Clone, Copy, Debug, PartialEq, Eq, Structural)]
pub enum DiffError {
    /// No valid baseline exists for the participant: `start_diff` was
    /// never called, or backward navigation invalidated the baseline.
    NoBaseline,
    /// The participant identity is unknown at the current position.
    NoSuchParticipant,
}

/// The read-only status summary.
#[derive(Clone, Debug)]
pub struct Status {
    pub frame_count: usize,
    pub step_count: usize,
    pub current_op: Option<Msg>,
    pub next_op: Option<Msg>,
    pub last_received_envelope: Option<Envelope>,
}

/// The replay engine itself.
pub struct Debugger {
    schedule: Schedule,
    cursor: usize,
    entries: Vec<StoreEntry>,
    history: Vec<HistEntry>,
    baselines: Vec<Baseline>,
}

/// Mathematical view of the whole engine.
#[verifier::ext_equal]
pub struct DebuggerView {
    pub sched: ScheduleView,
    pub cursor: int,
    pub entries: Seq<EntryView>,
    pub history: Seq<HistView>,
    pub baselines: Seq<BaselineView>,
}

impl View for Debugger {
    type V = DebuggerView;

    closed spec fn view(&self) -> DebuggerView {
        DebuggerView {
            sched: self.schedule@,
            cursor: self.cursor as int,
            entries: eview(self.entries),
            history: hview(self.history),
            baselines: bview(self.baselines),
        }
    }
}

// ---------------------------------------------------------------------
// The association-store model.
// ---------------------------------------------------------------------

/// The index of the first entry keyed by `k`, or `es.len()` if none is.
pub open spec fn find_idx(es: Seq<EntryView>, k: ReplicaView) -> int
    decreases es.len(),
{
    if es.len() == 0 {
        0
    } else if es[0].replica == k {
        0
    } else {
        1 + find_idx(es.drop_first(), k)
    }
}

/// Whether some entry is keyed by `k`.
pub open spec fn has_key(es: Seq<EntryView>, k: ReplicaView) -> bool {
    find_idx(es, k) < es.len()
}

/// The state stored under `k`, or the initial state if `k` is unknown:
/// a participant not yet referenced has default initial state.
pub open spec fn state_of(es: Seq<EntryView>, k: ReplicaView) -> ProtocolStateView {
    if has_key(es, k) {
        es[find_idx(es, k)].state
    } else {
        initial_state()
    }
}

/// The store with `v` bound under `k`: updated in place when `k` is
/// known, appended otherwise.
pub open spec fn put(es: Seq<EntryView>, k: ReplicaView, v: ProtocolStateView) -> Seq<EntryView> {
    if has_key(es, k) {
        es.update(find_idx(es, k), EntryView { replica: k, state: v })
    } else {
        es.push(EntryView { replica: k, state: v })
    }
}

/// `find_idx` finds the first entry keyed by `k`, and `es.len()` means
/// there is none.
pub proof fn lemma_find_idx(es: Seq<EntryView>, k: ReplicaView)
    ensures
        0 <= find_idx(es, k) <= es.len(),
        find_idx(es, k) < es.len() ==> es[find_idx(es, k)].replica == k,
        forall|m: int| 0 <= m < find_idx(es, k) ==> es[m].replica != k,
        find_idx(es, k) == es.len() ==> forall|m: int| 0 <= m < es.len() ==> es[m].replica != k,
    decreases es.len(),
{
    if es.len() > 0 && es[0].replica != k {
        let t = es.drop_first();
        lemma_find_idx(t, k);
        assert forall|m: int| 0 <= m < find_idx(es, k) implies es[m].replica != k by {
            if m > 0 {
                assert(es[m] == t[m - 1]);
            }
        }
    }
}

/// A first occurrence pins `find_idx`.
pub proof fn lemma_find_idx_of_first(es: Seq<EntryView>, k: ReplicaView, i: int)
    requires
        0 <= i < es.len(),
        es[i].replica == k,
        forall|m: int| 0 <= m < i ==> es[m].replica != k,
    ensures
        find_idx(es, k) == i,
    decreases es.len(),
{
    if i > 0 {
        let t = es.drop_first();
        assert forall|m: int| 0 <= m < i - 1 implies t[m].replica != k by {
            assert(t[m] == es[m + 1]);
        }
        lemma_find_idx_of_first(t, k, i - 1);
    }
}

/// Absence of `k` everywhere pins `find_idx` to `es.len()`.
pub proof fn lemma_find_idx_absent(es: Seq<EntryView>, k: ReplicaView)
    requires
        forall|m: int| 0 <= m < es.len() ==> es[m].replica != k,
    ensures
        find_idx(es, k) == es.len(),
{
    lemma_find_idx(es, k);
    if find_idx(es, k) < es.len() {
        assert(es[find_idx(es, k)].replica != k);
    }
}

// ---------------------------------------------------------------------
// The store and history as pure functions of the applied prefix.
// ---------------------------------------------------------------------

/// The store after delivering envelope `e` to the store `es`.
pub open spec fn apply_env(es: Seq<EntryView>, e: EnvelopeView) -> Seq<EntryView> {
    put(es, e.to, apply_msg_spec(state_of(es, e.to), e.msg))
}

/// The checkpoint recorded when envelope `e` is applied to store `es`.
pub open spec fn hist_of(es: Seq<EntryView>, e: EnvelopeView) -> HistView {
    HistView {
        prior: if has_key(es, e.to) {
            Some(state_of(es, e.to))
        } else {
            None
        },
        rejected: rejects(state_of(es, e.to), e.msg),
    }
}

/// The state store after the first `n` steps of the log, in log order,
/// starting from an empty store.
pub open spec fn store_at(steps: Seq<EnvelopeView>, n: int) -> Seq<EntryView>
    decreases n,
{
    if n <= 0 {
        Seq::empty()
    } else {
        apply_env(store_at(steps, n - 1), steps[n - 1])
    }
}

/// The checkpoint stack after the first `n` steps of the log.
pub open spec fn hist_at(steps: Seq<EnvelopeView>, n: int) -> Seq<HistView>
    decreases n,
{
    if n <= 0 {
        Seq::empty()
    } else {
        hist_at(steps, n - 1).push(hist_of(store_at(steps, n - 1), steps[n - 1]))
    }
}

/// The checkpoint stack after `n` steps holds exactly `n` checkpoints.
pub proof fn lemma_hist_at_len(steps: Seq<EnvelopeView>, n: int)
    requires
        n >= 0,
    ensures
        hist_at(steps, n).len() == n,
    decreases n,
{
    if n > 0 {
        lemma_hist_at_len(steps, n - 1);
    }
}

/// The baselines that survive a move to cursor position `c`: exactly
/// those taken strictly before `c`.
pub open spec fn invalidated(bs: Seq<BaselineView>, c: int) -> Seq<BaselineView>
    decreases bs.len(),
{
    if bs.len() == 0 {
        Seq::empty()
    } else if bs[0].pos < c {
        seq![bs[0]] + invalidated(bs.drop_first(), c)
    } else {
        invalidated(bs.drop_first(), c)
    }
}

/// Every surviving baseline was taken strictly before `c` and is
/// nonnegative, provided the originals were.
pub proof fn lemma_invalidated_elems(bs: Seq<BaselineView>, c: int)
    requires
        forall|j: int| 0 <= j < bs.len() ==> 0 <= #[trigger] bs[j].pos,
    ensures
        forall|i: int|
            0 <= i < invalidated(bs, c).len() ==> 0 <= #[trigger] invalidated(bs, c)[i].pos < c,
    decreases bs.len(),
{
    if bs.len() > 0 {
        let t = bs.drop_first();
        assert forall|j: int| 0 <= j < t.len() implies 0 <= #[trigger] t[j].pos by {
            assert(t[j] == bs[j + 1]);
        }
        lemma_invalidated_elems(t, c);
        if bs[0].pos < c {
            assert forall|i: int| 0 <= i < invalidated(bs, c).len() implies 0 <= #[trigger]
                invalidated(bs, c)[i].pos < c by {
                if i > 0 {
                    assert(invalidated(bs, c)[i] == invalidated(t, c)[i - 1]);
                }
            }
        }
    }
}

/// Invalidating at `c1` and then at an earlier or equal `c2` is the
/// same as invalidating at `c2` alone.
pub proof fn lemma_invalidated_compose(bs: Seq<BaselineView>, c1: int, c2: int)
    requires
        c2 <= c1,
    ensures
        invalidated(invalidated(bs, c1), c2) == invalidated(bs, c2),
    decreases bs.len(),
{
    if bs.len() > 0 {
        let t = bs.drop_first();
        lemma_invalidated_compose(t, c1, c2);
        if bs[0].pos < c1 {
            let u = seq![bs[0]] + invalidated(t, c1);
            assert(invalidated(bs, c1) == u);
            assert(u[0] == bs[0]);
            assert(u.drop_first() =~= invalidated(t, c1));
            if bs[0].pos < c2 {
                assert(invalidated(u, c2) == seq![u[0]] + invalidated(u.drop_first(), c2));
            } else {
                assert(invalidated(u, c2) == invalidated(u.drop_first(), c2));
            }
        }
    }
}

/// The cursor after one forward jump from `c`.
pub open spec fn jump1_fwd(s: ScheduleView, c: int) -> int {
    if c < s.steps.len() {
        next_boundary(s, c)
    } else {
        c
    }
}

/// The cursor after one backward jump from `c`.
pub open spec fn jump1_bwd(s: ScheduleView, c: int) -> int {
    if c > 0 {
        prev_boundary(s, c)
    } else {
        c
    }
}

/// The cursor after `n` forward jumps from `c`.
pub open spec fn jump_fwd_target(s: ScheduleView, c: int, n: nat) -> int
    decreases n,
{
    if n == 0 {
        c
    } else {
        jump_fwd_target(s, jump1_fwd(s, c), (n - 1) as nat)
    }
}

/// The cursor after `n` backward jumps from `c`.
pub open spec fn jump_bwd_target(s: ScheduleView, c: int, n: nat) -> int
    decreases n,
{
    if n == 0 {
        c
    } else {
        jump_bwd_target(s, jump1_bwd(s, c), (n - 1) as nat)
    }
}

/// Peeling one forward jump off the end of an iteration.
pub proof fn lemma_jump_fwd_snoc(s: ScheduleView, c: int, n: nat)
    ensures
        jump_fwd_target(s, c, n + 1) == jump1_fwd(s, jump_fwd_target(s, c, n)),
    decreases n,
{
    if n == 0 {
        assert(jump_fwd_target(s, c, 1) == jump_fwd_target(s, jump1_fwd(s, c), 0));
    } else {
        lemma_jump_fwd_snoc(s, jump1_fwd(s, c), (n - 1) as nat);
        assert(jump_fwd_target(s, c, n + 1) == jump_fwd_target(s, jump1_fwd(s, c), n));
        assert(jump_fwd_target(s, c, n) == jump_fwd_target(s, jump1_fwd(s, c), (n - 1) as nat));
    }
}

/// Peeling one backward jump off the end of an iteration.
pub proof fn lemma_jump_bwd_snoc(s: ScheduleView, c: int, n: nat)
    ensures
        jump_bwd_target(s, c, n + 1) == jump1_bwd(s, jump_bwd_target(s, c, n)),
    decreases n,
{
    if n == 0 {
        assert(jump_bwd_target(s, c, 1) == jump_bwd_target(s, jump1_bwd(s, c), 0));
    } else {
        lemma_jump_bwd_snoc(s, jump1_bwd(s, c), (n - 1) as nat);
        assert(jump_bwd_target(s, c, n + 1) == jump_bwd_target(s, jump1_bwd(s, c), n));
        assert(jump_bwd_target(s, c, n) == jump_bwd_target(s, jump1_bwd(s, c), (n - 1) as nat));
    }
}

/// The baseline set taken by `start_diff`: one baseline per known
/// participant, at cursor position `c`, holding its current state.
pub open spec fn snapshot(es: Seq<EntryView>, c: int) -> Seq<BaselineView> {
    es.map_values(|e: EntryView| BaselineView { replica: e.replica, pos: c, state: e.state })
}

/// The index of the first baseline for `k`, or `bs.len()` if none is.
pub open spec fn baseline_idx(bs: Seq<BaselineView>, k: ReplicaView) -> int
    decreases bs.len(),
{
    if bs.len() == 0 {
        0
    } else if bs[0].replica == k {
        0
    } else {
        1 + baseline_idx(bs.drop_first(), k)
    }
}

/// Whether a baseline exists for `k`.
pub open spec fn has_baseline(bs: Seq<BaselineView>, k: ReplicaView) -> bool {
    baseline_idx(bs, k) < bs.len()
}

/// `baseline_idx` finds the first baseline for `k`.
pub proof fn lemma_baseline_idx(bs: Seq<BaselineView>, k: ReplicaView)
    ensures
        0 <= baseline_idx(bs, k) <= bs.len(),
        baseline_idx(bs, k) < bs.len() ==> bs[baseline_idx(bs, k)].replica == k,
        forall|m: int| 0 <= m < baseline_idx(bs, k) ==> bs[m].replica != k,
        baseline_idx(bs, k) == bs.len() ==> forall|m: int|
            0 <= m < bs.len() ==> bs[m].replica != k,
    decreases bs.len(),
{
    if bs.len() > 0 && bs[0].replica != k {
        let t = bs.drop_first();
        lemma_baseline_idx(t, k);
        assert forall|m: int| 0 <= m < baseline_idx(bs, k) implies bs[m].replica != k by {
            if m > 0 {
                assert(bs[m] == t[m - 1]);
            }
        }
    }
}

/// The model of a vector of store entries.
pub open spec fn eview(v: Vec<StoreEntry>) -> Seq<EntryView> {
    v@.map_values(|e: StoreEntry| e@)
}

/// The model of a vector of checkpoints.
pub open spec fn hview(v: Vec<HistEntry>) -> Seq<HistView> {
    v@.map_values(|h: HistEntry| h@)
}

/// The model of a vector of baselines.
pub open spec fn bview(v: Vec<Baseline>) -> Seq<BaselineView> {
    v@.map_values(|b: Baseline| b@)
}

/// What `get_status` reports of engine state `d`: the log sizes, the
/// message of the step just applied (if any), the message of the step
/// about to be applied (if any), and the envelope last received.
pub open spec fn status_ok(d: DebuggerView, st: Status) -> bool {
    &&& st.frame_count as int == d.sched.frames.len()
    &&& st.step_count as int == d.sched.steps.len()
    &&& d.cursor > 0 ==> {
        &&& st.current_op == Some(d.sched.steps[d.cursor - 1].msg)
        &&& st.last_received_envelope matches Some(e) && e@ == d.sched.steps[d.cursor - 1]
    }
    &&& d.cursor == 0 ==> st.current_op is None && st.last_received_envelope is None
    &&& d.cursor < d.sched.steps.len() ==> st.next_op == Some(d.sched.steps[d.cursor].msg)
    &&& d.cursor == d.sched.steps.len() ==> st.next_op is None
}

/// What `diff` returns: the structural difference of the baseline and
/// current state for a known participant with a valid baseline, or the
/// reason none can be given.
pub open spec fn diff_model(d: DebuggerView, k: ReplicaView) -> Result<DiffView, DiffError> {
    if !has_key(d.entries, k) {
        Result::<DiffView, DiffError>::Err(DiffError::NoSuchParticipant)
    } else if !has_baseline(d.baselines, k) {
        Result::<DiffView, DiffError>::Err(DiffError::NoBaseline)
    } else {
        Result::<DiffView, DiffError>::Ok(
            diff_spec(
                d.baselines[baseline_idx(d.baselines, k)].state,
                state_of(d.entries, k),
            ),
        )
    }
}

/// Well-formedness of the whole engine: the cursor is within the log,
/// the store and checkpoint stack are exactly the pure functions of the
/// applied prefix, and every baseline was taken at or before the cursor.
pub open spec fn wf(d: DebuggerView) -> bool {
    &&& sched_wf(d.sched)
    &&& 0 <= d.cursor <= d.sched.steps.len()
    &&& d.entries == store_at(d.sched.steps, d.cursor)
    &&& d.history == hist_at(d.sched.steps, d.cursor)
    &&& forall|i: int| 0 <= i < d.baselines.len() ==> 0 <= #[trigger] d.baselines[i].pos <= d.cursor
}

/// Finds the first store entry keyed by `k`, as `find_idx` states it.
fn find_entry(entries: &Vec<StoreEntry>, k: &Replica) -> (r: usize)
    ensures
        r as int == find_idx(eview(*entries), k@),
{
    let ghost es = eview(*entries);
    let mut i: usize = 0;
    while i < entries.len()
        invariant
            i <= entries.len(),
            es == eview(*entries),
            es.len() == entries@.len(),
            forall|m: int| 0 <= m < i ==> es[m].replica != k@,
        decreases entries.len() - i,
    {
        if replica_eq(&entries[i].replica, k) {
            proof {
                assert(es[i as int].replica == k@);
                lemma_find_idx_of_first(es, k@, i as int);
            }
            return i;
        }
        proof {
            assert(es[i as int].replica == entries@[i as int]@.replica);
        }
        i = i + 1;
    }
    proof {
        lemma_find_idx_absent(es, k@);
    }
    entries.len()
}

/// Finds the first baseline for `k`, as `baseline_idx` states it.
fn find_baseline(baselines: &Vec<Baseline>, k: &Replica) -> (r: usize)
    ensures
        r as int == baseline_idx(bview(*baselines), k@),
{
    let ghost bs = bview(*baselines);
    let mut i: usize = 0;
    while i < baselines.len()
        invariant
            i <= baselines.len(),
            bs == bview(*baselines),
            bs.len() == baselines@.len(),
            forall|m: int| 0 <= m < i ==> bs[m].replica != k@,
        decreases baselines.len() - i,
    {
        if replica_eq(&baselines[i].replica, k) {
            proof {
                assert(bs[i as int].replica == k@);
                lemma_baseline_idx_of_first(bs, k@, i as int);
            }
            return i;
        }
        proof {
            assert(bs[i as int].replica == baselines@[i as int]@.replica);
        }
        i = i + 1;
    }
    proof {
        lemma_baseline_idx(bs, k@);
        if baseline_idx(bs, k@) < bs.len() {
            assert(bs[baseline_idx(bs, k@)].replica != k@);
        }
    }
    baselines.len()
}

/// A first baseline occurrence pins `baseline_idx`.
pub proof fn lemma_baseline_idx_of_first(bs: Seq<BaselineView>, k: ReplicaView, i: int)
    requires
        0 <= i < bs.len(),
        bs[i].replica == k,
        forall|m: int| 0 <= m < i ==> bs[m].replica != k,
    ensures
        baseline_idx(bs, k) == i,
    decreases bs.len(),
{
    if i > 0 {
        let t = bs.drop_first();
        assert forall|m: int| 0 <= m < i - 1 implies t[m].replica != k by {
            assert(t[m] == bs[m + 1]);
        }
        lemma_baseline_idx_of_first(t, k, i - 1);
    }
}

impl Debugger {
    /// A fresh engine over an empty schedule.
    pub fn new() -> (r: Debugger)
        ensures
            wf(r@),
            r@.sched.frames == Seq::<FrameMeta>::empty(),
            r@.sched.steps == Seq::<EnvelopeView>::empty(),
            r@.cursor == 0,
            r@.entries == Seq::<EntryView>::empty(),
            r@.history == Seq::<HistView>::empty(),
            r@.baselines == Seq::<BaselineView>::empty(),
    {
        let r = Debugger {
            schedule: empty_schedule(),
            cursor: 0,
            entries: Vec::new(),
            history: Vec::new(),
            baselines: Vec::new(),
        };
        proof {
            assert(r@.entries =~= Seq::<EntryView>::empty());
            assert(r@.history =~= Seq::<HistView>::empty());
            assert(r@.baselines =~= Seq::<BaselineView>::empty());
            assert(r@.entries =~= store_at(r@.sched.steps, 0));
            assert(r@.history =~= hist_at(r@.sched.steps, 0));
        }
        r
    }

    /// Installs a freshly loaded schedule and resets the cursor, the
    /// state store, the checkpoints and the baselines.
    pub fn install_schedule(&mut self, schedule: Schedule)
        requires
            sched_wf(schedule@),
        ensures
            wf(final(self)@),
            final(self)@.sched == schedule@,
            final(self)@.cursor == 0,
            final(self)@.entries == Seq::<EntryView>::empty(),
            final(self)@.history == Seq::<HistView>::empty(),
            final(self)@.baselines == Seq::<BaselineView>::empty(),
    {
        self.schedule = schedule;
        self.cursor = 0;
        self.entries = Vec::new();
        self.history = Vec::new();
        self.baselines = Vec::new();
        proof {
            assert(final(self)@.entries =~= Seq::<EntryView>::empty());
            assert(final(self)@.history =~= Seq::<HistView>::empty());
            assert(final(self)@.baselines =~= Seq::<BaselineView>::empty());
            assert(final(self)@.entries =~= store_at(final(self)@.sched.steps, 0));
            assert(final(self)@.history =~= hist_at(final(self)@.sched.steps, 0));
        }
    }

    /// Loads a recorded trace: parses the bytes and, on success,
    /// installs the schedule with the cursor at the start and no state,
    /// checkpoints or baselines.  On failure the engine is untouched.
    pub fn load_schedule(&mut self, bytes: &Vec<u8>) -> (r: Result<(), LoadError>)
        ensures
            match parse_schedule_spec(bytes@) {
                Ok(sv) => {
                    &&& r is Ok
                    &&& wf(final(self)@)
                    &&& final(self)@.sched == sv
                    &&& final(self)@.cursor == 0
                    &&& final(self)@.baselines == Seq::<BaselineView>::empty()
                },
                Err(e) => r == Result::<(), LoadError>::Err(e) && final(self)@ == old(self)@,
            },
    {
        match parse_schedule(bytes) {
            Ok(sched) => {
                self.install_schedule(sched);
                Ok(())
            },
            Err(e) => Err(e),
        }
    }

    /// The cursor: how many steps of the log have been applied.
    pub fn position(&self) -> (r: usize)
        ensures
            r as int == self@.cursor,
    {
        self.cursor
    }

    /// The total number of steps in the log.
    pub fn total_steps(&self) -> (r: usize)
        ensures
            r as int == self@.sched.steps.len(),
    {
        self.schedule.steps.len()
    }

    /// The total number of frames in the log.
    pub fn total_frames(&self) -> (r: usize)
        ensures
            r as int == self@.sched.frames.len(),
    {
        self.schedule.frames.len()
    }

    /// Whether the cursor currently sits on a frame boundary.
    pub fn at_frame_boundary(&self) -> (r: bool)
        ensures
            r == is_frame_boundary(self@.sched, self@.cursor),
    {
        if self.cursor == 0 {
            return true;
        }
        let mut i: usize = 0;
        while i < self.schedule.frames.len()
            invariant
                i <= self@.sched.frames.len(),
                forall|m: int| 0 <= m < i ==> #[trigger] self@.sched.frames[m].end
                    != self@.cursor,
        decreases self@.sched.frames.len() - i,
        {
            if self.schedule.frames[i].end == self.cursor {
                return true;
            }
            i = i + 1;
        }
        false
    }

    /// Applies exactly the next step of the log, in global order; a
    /// no-op at the end of the log.  Baselines are untouched.
    pub fn step_forward(&mut self)
        requires
            wf(old(self)@),
        ensures
            wf(final(self)@),
            final(self)@.sched == old(self)@.sched,
            final(self)@.baselines == old(self)@.baselines,
            final(self)@.cursor == if old(self)@.cursor < old(self)@.sched.steps.len() {
                old(self)@.cursor + 1
            } else {
                old(self)@.cursor
            },
    {
        if self.cursor >= self.schedule.steps.len() {
            return;
        }
        let ghost c = self.cursor as int;
        let ghost sv = self@.sched.steps;
        let ghost es = eview(self.entries);
        let to = self.schedule.steps[self.cursor].to.clone_replica();
        let msg = self.schedule.steps[self.cursor].msg;
        proof {
            assert(sv[c] == self.schedule.steps@[c]@);
            assert(to@ == sv[c].to);
            assert(msg == sv[c].msg);
            lemma_find_idx(es, to@);
        }
        let idx = find_entry(&self.entries, &to);
        if idx < self.entries.len() {
            let prior = self.entries[idx].state.clone_state();
            let (news, rej) = self.entries[idx].state.apply_msg(&msg);
            proof {
                assert(es[idx as int] == self.entries@[idx as int]@);
                assert(es[idx as int].state == state_of(es, to@));
            }
            self.entries[idx] = StoreEntry { replica: to, state: news };
            self.history.push(HistEntry { prior: Some(prior), rejected: rej });
            self.cursor = self.cursor + 1;
            proof {
                assert(eview(self.entries) =~= put(es, sv[c].to, apply_msg_spec(state_of(es,
                    sv[c].to), sv[c].msg)));
                assert(eview(self.entries) == store_at(sv, c + 1));
                assert(hview(self.history) =~= hist_at(sv, c).push(hist_of(store_at(sv, c),
                    sv[c])));
                assert(bview(self.baselines) == old(self)@.baselines);
            }
        } else {
            let init = ProtocolState::initial();
            let (news, rej) = init.apply_msg(&msg);
            self.entries.push(StoreEntry { replica: to, state: news });
            self.history.push(HistEntry { prior: None, rejected: rej });
            self.cursor = self.cursor + 1;
            proof {
                assert(!has_key(es, sv[c].to));
                assert(state_of(es, sv[c].to) == initial_state());
                assert(eview(self.entries) =~= put(es, sv[c].to, apply_msg_spec(state_of(es,
                    sv[c].to), sv[c].msg)));
                assert(eview(self.entries) == store_at(sv, c + 1));
                assert(hview(self.history) =~= hist_at(sv, c).push(hist_of(store_at(sv, c),
                    sv[c])));
                assert(bview(self.baselines) == old(self)@.baselines);
            }
        }
    }

    /// Reverts exactly the most recently applied step, restoring the
    /// addressed participant's state to what it was just before that
    /// step; a no-op at the start of the log.  Every baseline taken at
    /// or after the new cursor position is discarded.
    pub fn step_backward(&mut self)
        requires
            wf(old(self)@),
        ensures
            wf(final(self)@),
            final(self)@.sched == old(self)@.sched,
            final(self)@.cursor == if old(self)@.cursor > 0 {
                old(self)@.cursor - 1
            } else {
                old(self)@.cursor
            },
            old(self)@.cursor > 0 ==> final(self)@.baselines == invalidated(
                old(self)@.baselines,
                old(self)@.cursor - 1,
            ),
            old(self)@.cursor == 0 ==> final(self)@.baselines == old(self)@.baselines,
    {
        if self.cursor == 0 {
            return;
        }
        let ghost c = self.cursor as int;
        let ghost sv = self@.sched.steps;
        let ghost es = eview(self.entries);
        let ghost prev = store_at(sv, c - 1);
        proof {
            lemma_hist_at_len(sv, c);
            lemma_hist_at_len(sv, c - 1);
            assert(hview(self.history).len() == self.history@.len());
        }
        let h = self.history.pop().unwrap();
        proof {
            assert(old(self)@.history == hist_at(sv, c));
            assert(h@ == hview(old(self).history)[c - 1]);
            assert(h@ == hist_at(sv, c)[c - 1]);
            assert(h@ == hist_of(prev, sv[c - 1]));
            assert(es == apply_env(prev, sv[c - 1]));
            lemma_find_idx(prev, sv[c - 1].to);
        }
        let to = self.schedule.steps[self.cursor - 1].to.clone_replica();
        proof {
            assert(sv[c - 1] == self.schedule.steps@[c - 1]@);
            assert(to@ == sv[c - 1].to);
        }
        let idx = find_entry(&self.entries, &to);
        match h.prior {
            Some(p) => {
                proof {
                    lemma_restore_update(prev, sv[c - 1]);
                    assert(idx as int == find_idx(es, to@));
                    assert(idx as int == find_idx(prev, to@));
                    assert(idx < self.entries.len());
                }
                self.entries[idx] = StoreEntry { replica: to, state: p };
                proof {
                    assert(eview(self.entries) =~= prev);
                }
            },
            None => {
                proof {
                    lemma_restore_push(prev, sv[c - 1]);
                    assert(idx as int == es.len() - 1);
                    assert(idx == self.entries.len() - 1);
                }
                let _ = self.entries.pop();
                proof {
                    assert(eview(self.entries) =~= prev);
                }
            },
        }
        self.cursor = self.cursor - 1;
        let ghost bs = bview(self.baselines);
        self.retain_baselines_below(self.cursor);
        proof {
            assert(self.history@.len() == c - 1);
            assert forall|m: int| 0 <= m < c - 1 implies hview(self.history)[m] == hist_at(
                sv,
                c - 1,
            )[m] by {
                assert(hview(self.history)[m] == self.history@[m]@);
                assert(self.history@[m] == old(self).history@[m]);
                assert(hview(old(self).history)[m] == old(self).history@[m]@);
                assert(hist_at(sv, c)[m] == hist_at(sv, c - 1)[m]);
            }
            assert(hview(self.history) =~= hist_at(sv, c - 1));
            assert(bs == old(self)@.baselines);
            lemma_invalidated_elems(bs, c - 1);
        }
    }

    /// The nearest frame boundary strictly after the cursor.
    fn next_boundary_exec(&self) -> (r: usize)
        requires
            wf(self@),
            self@.cursor < self@.sched.steps.len(),
        ensures
            r as int == next_boundary(self@.sched, self@.cursor),
            is_next_boundary(self@.sched, self@.cursor, r as int),
    {
        let ghost s = self@.sched;
        let ghost c = self@.cursor;
        let total = self.schedule.steps.len();
        proof {
            assert(s.frames.len() > 0);
            assert(s.frames[s.frames.len() - 1].end == total);
            assert(is_frame_boundary(s, total as int));
        }
        let mut best: usize = total;
        let mut i: usize = 0;
        while i < self.schedule.frames.len()
            invariant
                wf(self@),
                s == self@.sched,
                c == self@.cursor,
                total as int == s.steps.len(),
                i <= s.frames.len(),
                is_frame_boundary(s, best as int),
                c < best <= total,
                forall|m: int|
                    0 <= m < i && #[trigger] s.frames[m].end > c ==> best <= s.frames[m].end,
            decreases s.frames.len() - i,
        {
            let e = self.schedule.frames[i].end;
            proof {
                assert(e == s.frames[i as int].end);
            }
            if e > self.cursor && e < best {
                best = e;
                proof {
                    assert(is_frame_boundary(s, best as int));
                }
            }
            i = i + 1;
        }
        proof {
            assert(is_next_boundary(s, c, best as int));
            lemma_next_boundary_pins(s, c, best as int);
        }
        best
    }

    /// The nearest frame boundary strictly before the cursor.
    fn prev_boundary_exec(&self) -> (r: usize)
        requires
            wf(self@),
            self@.cursor > 0,
        ensures
            r as int == prev_boundary(self@.sched, self@.cursor),
            is_prev_boundary(self@.sched, self@.cursor, r as int),
    {
        let ghost s = self@.sched;
        let ghost c = self@.cursor;
        let mut best: usize = 0;
        let mut i: usize = 0;
        while i < self.schedule.frames.len()
            invariant
                wf(self@),
                s == self@.sched,
                c == self@.cursor,
                i <= s.frames.len(),
                is_frame_boundary(s, best as int),
                0 <= best < c,
                forall|m: int|
                    0 <= m < i && #[trigger] s.frames[m].end < c ==> s.frames[m].end <= best,
            decreases s.frames.len() - i,
        {
            let e = self.schedule.frames[i].end;
            proof {
                assert(e == s.frames[i as int].end);
            }
            if e < self.cursor && e > best {
                best = e;
                proof {
                    assert(is_frame_boundary(s, best as int));
                }
            }
            i = i + 1;
        }
        proof {
            assert(is_prev_boundary(s, c, best as int));
            lemma_prev_boundary_pins(s, c, best as int);
        }
        best
    }

    /// Applies the remainder of the current frame — or, from a boundary,
    /// one whole frame — as one unit, leaving the cursor exactly on the
    /// nearest frame boundary ahead; a no-op at the end of the log.
    #[verifier::loop_isolation(false)]
    pub fn jump_forward(&mut self)
        requires
            wf(old(self)@),
        ensures
            wf(final(self)@),
            final(self)@.sched == old(self)@.sched,
            final(self)@.baselines == old(self)@.baselines,
            final(self)@.cursor == jump1_fwd(old(self)@.sched, old(self)@.cursor),
            is_frame_boundary(final(self)@.sched, final(self)@.cursor),
            old(self)@.cursor < old(self)@.sched.steps.len() ==> is_next_boundary(
                old(self)@.sched,
                old(self)@.cursor,
                final(self)@.cursor,
            ),
    {
        let ghost s = old(self)@.sched;
        if self.cursor >= self.schedule.steps.len() {
            proof {
                if self@.cursor != 0 {
                    assert(s.frames.len() > 0);
                    assert(s.frames[s.frames.len() - 1].end == s.steps.len());
                }
            }
            return;
        }
        let t = self.next_boundary_exec();
        while self.cursor < t
            invariant
                wf(self@),
                self@.sched == s,
                self@.baselines == old(self)@.baselines,
                self@.cursor <= t,
                (t as int) <= s.steps.len(),
            decreases (t as int) - self@.cursor,
        {
            self.step_forward();
        }
    }

    /// Reverts to the nearest frame boundary behind the cursor — from a
    /// boundary, one whole frame — as one unit; a no-op at the start of
    /// the log.  Baselines at or past the new position are discarded.
    #[verifier::loop_isolation(false)]
    pub fn jump_backward(&mut self)
        requires
            wf(old(self)@),
        ensures
            wf(final(self)@),
            final(self)@.sched == old(self)@.sched,
            final(self)@.cursor == jump1_bwd(old(self)@.sched, old(self)@.cursor),
            is_frame_boundary(final(self)@.sched, final(self)@.cursor),
            old(self)@.cursor > 0 ==> final(self)@.baselines == invalidated(
                old(self)@.baselines,
                final(self)@.cursor,
            ),
            old(self)@.cursor == 0 ==> final(self)@.baselines == old(self)@.baselines,
            old(self)@.cursor > 0 ==> is_prev_boundary(
                old(self)@.sched,
                old(self)@.cursor,
                final(self)@.cursor,
            ),
    {
        let ghost s = old(self)@.sched;
        let ghost c0 = old(self)@.cursor;
        if self.cursor == 0 {
            return;
        }
        let t = self.prev_boundary_exec();
        while self.cursor > t
            invariant
                wf(self@),
                self@.sched == s,
                (t as int) < c0,
                (t as int) <= self@.cursor && self@.cursor <= c0,
                self@.cursor == c0 ==> self@.baselines == old(self)@.baselines,
                self@.cursor < c0 ==> self@.baselines == invalidated(
                    old(self)@.baselines,
                    self@.cursor,
                ),
            decreases self@.cursor - (t as int),
        {
            let ghost pre = self@;
            self.step_backward();
            proof {
                if pre.cursor < c0 {
                    lemma_invalidated_compose(old(self)@.baselines, pre.cursor, self@.cursor);
                }
            }
        }
    }

    /// Moves `n` steps forward, stopping silently at the end of the log
    /// if fewer remain.
    #[verifier::loop_isolation(false)]
    pub fn step_forward_n(&mut self, n: usize)
        requires
            wf(old(self)@),
        ensures
            wf(final(self)@),
            final(self)@.sched == old(self)@.sched,
            final(self)@.baselines == old(self)@.baselines,
            final(self)@.cursor == if old(self)@.cursor + n <= old(self)@.sched.steps.len() {
                old(self)@.cursor + n
            } else {
                old(self)@.sched.steps.len() as int
            },
    {
        let ghost s = old(self)@.sched;
        let ghost c0 = old(self)@.cursor;
        let mut k: usize = 0;
        while k < n
            invariant
                wf(self@),
                self@.sched == s,
                self@.baselines == old(self)@.baselines,
                k <= n,
                self@.cursor == if c0 + k <= s.steps.len() {
                    c0 + k
                } else {
                    s.steps.len() as int
                },
                self@.cursor < c0 + k ==> self@.cursor == s.steps.len(),
            decreases n - k,
        {
            if self.cursor >= self.schedule.steps.len() {
                return;
            }
            self.step_forward();
            k = k + 1;
        }
    }

    /// Moves `n` steps backward, stopping silently at the start of the
    /// log if fewer were applied.  Baselines at or past the final
    /// position are discarded.
    #[verifier::loop_isolation(false)]
    pub fn step_backward_n(&mut self, n: usize)
        requires
            wf(old(self)@),
        ensures
            wf(final(self)@),
            final(self)@.sched == old(self)@.sched,
            final(self)@.cursor == if old(self)@.cursor >= n {
                old(self)@.cursor - n
            } else {
                0
            },
            n == 0 || old(self)@.cursor == 0 ==> final(self)@.baselines == old(self)@.baselines,
            n > 0 && old(self)@.cursor > 0 ==> final(self)@.baselines == invalidated(
                old(self)@.baselines,
                final(self)@.cursor,
            ),
    {
        let ghost s = old(self)@.sched;
        let ghost c0 = old(self)@.cursor;
        let mut k: usize = 0;
        while k < n
            invariant
                wf(self@),
                self@.sched == s,
                k <= n,
                self@.cursor == c0 - k || (self@.cursor == 0 && c0 <= k),
                self@.cursor == c0 ==> self@.baselines == old(self)@.baselines,
                self@.cursor < c0 ==> self@.baselines == invalidated(
                    old(self)@.baselines,
                    self@.cursor,
                ),
            decreases n - k,
        {
            if self.cursor == 0 {
                return;
            }
            let ghost pre = self@;
            self.step_backward();
            proof {
                if pre.cursor < c0 {
                    lemma_invalidated_compose(old(self)@.baselines, pre.cursor, self@.cursor);
                }
            }
            k = k + 1;
        }
    }

    /// Performs `n` forward jumps; each stops on a frame boundary.
    #[verifier::loop_isolation(false)]
    pub fn jump_forward_n(&mut self, n: usize)
        requires
            wf(old(self)@),
        ensures
            wf(final(self)@),
            final(self)@.sched == old(self)@.sched,
            final(self)@.baselines == old(self)@.baselines,
            final(self)@.cursor == jump_fwd_target(old(self)@.sched, old(self)@.cursor, n as nat),
            n > 0 ==> is_frame_boundary(final(self)@.sched, final(self)@.cursor),
    {
        let ghost s = old(self)@.sched;
        let ghost c0 = old(self)@.cursor;
        let mut k: usize = 0;
        while k < n
            invariant
                wf(self@),
                self@.sched == s,
                self@.baselines == old(self)@.baselines,
                k <= n,
                self@.cursor == jump_fwd_target(s, c0, k as nat),
                k > 0 ==> is_frame_boundary(s, self@.cursor),
            decreases n - k,
        {
            self.jump_forward();
            proof {
                lemma_jump_fwd_snoc(s, c0, k as nat);
            }
            k = k + 1;
        }
    }

    /// Performs `n` backward jumps; each stops on a frame boundary and
    /// discards the baselines it reaches.
    #[verifier::loop_isolation(false)]
    pub fn jump_backward_n(&mut self, n: usize)
        requires
            wf(old(self)@),
        ensures
            wf(final(self)@),
            final(self)@.sched == old(self)@.sched,
            final(self)@.cursor == jump_bwd_target(old(self)@.sched, old(self)@.cursor, n as nat),
            n > 0 ==> is_frame_boundary(final(self)@.sched, final(self)@.cursor),
            n == 0 || old(self)@.cursor == 0 ==> final(self)@.baselines == old(self)@.baselines,
            n > 0 && old(self)@.cursor > 0 && final(self)@.cursor < old(self)@.cursor
                ==> final(self)@.baselines == invalidated(
                old(self)@.baselines,
                final(self)@.cursor,
            ),
    {
        let ghost s = old(self)@.sched;
        let ghost c0 = old(self)@.cursor;
        let mut k: usize = 0;
        while k < n
            invariant
                wf(self@),
                self@.sched == s,
                k <= n,
                self@.cursor == jump_bwd_target(s, c0, k as nat),
                self@.cursor <= c0,
                k > 0 ==> is_frame_boundary(s, self@.cursor),
                self@.cursor == c0 ==> self@.baselines == old(self)@.baselines,
                self@.cursor < c0 ==> self@.baselines == invalidated(
                    old(self)@.baselines,
                    self@.cursor,
                ),
            decreases n - k,
        {
            let ghost pre = self@;
            self.jump_backward();
            proof {
                lemma_jump_bwd_snoc(s, c0, k as nat);
                if pre.cursor < c0 && self@.cursor < pre.cursor {
                    lemma_invalidated_compose(old(self)@.baselines, pre.cursor, self@.cursor);
                }
            }
            k = k + 1;
        }
    }

    /// Takes a diff baseline for every currently known participant:
    /// the current cursor position and a snapshot of its current state.
    pub fn start_diff(&mut self)
        requires
            wf(old(self)@),
        ensures
            wf(final(self)@),
            final(self)@.sched == old(self)@.sched,
            final(self)@.cursor == old(self)@.cursor,
            final(self)@.entries == old(self)@.entries,
            final(self)@.history == old(self)@.history,
            final(self)@.baselines == snapshot(old(self)@.entries, old(self)@.cursor),
    {
        let ghost es = old(self)@.entries;
        let ghost c = old(self)@.cursor;
        let mut bs: Vec<Baseline> = Vec::new();
        let mut i: usize = 0;
        proof {
            assert(bview(bs) =~= snapshot(es, c).take(0));
        }
        while i < self.entries.len()
            invariant
                wf(self@),
                self == old(self),
                es == self@.entries,
                c == self@.cursor,
                i <= self.entries.len(),
                es.len() == self.entries@.len(),
                bview(bs) == snapshot(es, c).take(i as int),
            decreases self.entries.len() - i,
        {
            let e = &self.entries[i];
            let nb = Baseline {
                replica: e.replica.clone_replica(),
                pos: self.cursor,
                state: e.state.clone_state(),
            };
            proof {
                assert(es[i as int] == self.entries@[i as int]@);
                assert(nb@ =~= snapshot(es, c)[i as int]);
            }
            let ghost bsv = bview(bs);
            bs.push(nb);
            proof {
                assert(bview(bs) =~= bsv.push(nb@));
                assert(bsv.push(nb@) =~= snapshot(es, c).take(i + 1));
            }
            i = i + 1;
        }
        proof {
            assert(snapshot(es, c).take(es.len() as int) =~= snapshot(es, c));
        }
        self.baselines = bs;
    }

    /// The structural difference between `r`'s baseline and its current
    /// state, or why none can be given: an unknown identity, or no
    /// valid baseline (never taken, or invalidated by backward motion).
    pub fn diff(&self, r: &Replica) -> (res: Result<Diff, DiffError>)
        requires
            wf(self@),
        ensures
            match res {
                Ok(df) => diff_model(self@, r@) matches Ok(v) && df@ == v,
                Err(e) => diff_model(self@, r@) == Result::<DiffView, DiffError>::Err(e),
            },
    {
        let idx = find_entry(&self.entries, r);
        proof {
            assert(eview(self.entries).len() == self.entries@.len());
        }
        if idx >= self.entries.len() {
            return Err(DiffError::NoSuchParticipant);
        }
        let b = find_baseline(&self.baselines, r);
        proof {
            assert(bview(self.baselines).len() == self.baselines@.len());
        }
        if b >= self.baselines.len() {
            return Err(DiffError::NoBaseline);
        }
        proof {
            assert(bview(self.baselines)[b as int] == self.baselines@[b as int]@);
            assert(eview(self.entries)[idx as int] == self.entries@[idx as int]@);
        }
        Ok(diff_states(&self.baselines[b].state, &self.entries[idx].state))
    }

    /// The identities of all currently known participants, rendered as
    /// `<name>::<node-name>`.
    pub fn replica_names(&self) -> (r: Vec<String>)
        ensures
            r@.len() == self@.entries.len(),
            forall|i: int|
                0 <= i < r@.len() ==> #[trigger] r@[i]@ == self@.entries[i].replica.name + seq![
                    ':',
                    ':',
                ] + self@.entries[i].replica.node.name,
    {
        let ghost es = eview(self.entries);
        proof {
            reveal_strlit("::");
            assert("::"@ =~= seq![':', ':']);
        }
        let mut out: Vec<String> = Vec::new();
        let mut i: usize = 0;
        while i < self.entries.len()
            invariant
                es == eview(self.entries),
                es.len() == self.entries@.len(),
                i <= self.entries.len(),
                out@.len() == i,
                "::"@ == seq![':', ':'],
                forall|m: int|
                    0 <= m < i ==> #[trigger] out@[m]@ == es[m].replica.name + seq![':', ':']
                        + es[m].replica.node.name,
            decreases self.entries.len() - i,
        {
            let e = &self.entries[i];
            let mut s = e.replica.name.clone();
            s.append("::");
            s.append(e.replica.node.name.as_str());
            proof {
                assert(es[i as int] == self.entries@[i as int]@);
                assert(s@ == es[i as int].replica.name + seq![':', ':']
                    + es[i as int].replica.node.name);
            }
            out.push(s);
            i = i + 1;
        }
        out
    }

    /// The current reconstructed state of `r`, or `None` if no applied
    /// step has referenced it.
    pub fn replica_state(&self, r: &Replica) -> (res: Option<ProtocolState>)
        ensures
            match res {
                Some(st) => has_key(self@.entries, r@) && st@ == state_of(self@.entries, r@),
                None => !has_key(self@.entries, r@),
            },
    {
        let idx = find_entry(&self.entries, r);
        proof {
            assert(eview(self.entries).len() == self.entries@.len());
        }
        if idx < self.entries.len() {
            proof {
                assert(eview(self.entries)[idx as int] == self.entries@[idx as int]@);
            }
            Some(self.entries[idx].state.clone_state())
        } else {
            None
        }
    }

    /// Whether the protocol rules rejected the `i`-th applied step's
    /// message, for steps the cursor has passed.
    pub fn step_rejected(&self, i: usize) -> (r: Option<bool>)
        ensures
            (i as int) < self@.history.len() ==> r == Some(self@.history[i as int].rejected),
            (i as int) >= self@.history.len() ==> r is None,
    {
        proof {
            assert(hview(self.history).len() == self.history@.len());
        }
        if i < self.history.len() {
            proof {
                assert(hview(self.history)[i as int] == self.history@[i as int]@);
            }
            Some(self.history[i].rejected)
        } else {
            None
        }
    }

    /// The read-only status summary: log sizes, the step just applied,
    /// the step about to be applied, and the last received envelope.
    pub fn get_status(&self) -> (r: Status)
        requires
            wf(self@),
        ensures
            status_ok(self@, r),
    {
        let frame_count = self.schedule.frames.len();
        let step_count = self.schedule.steps.len();
        let current_op = if self.cursor > 0 {
            proof {
                assert(self@.sched.steps[self.cursor - 1] == self.schedule.steps@[self.cursor
                    - 1]@);
            }
            Some(self.schedule.steps[self.cursor - 1].msg)
        } else {
            None
        };
        let next_op = if self.cursor < self.schedule.steps.len() {
            proof {
                assert(self@.sched.steps[self.cursor as int] == self.schedule.steps@[self.cursor
                    as int]@);
            }
            Some(self.schedule.steps[self.cursor].msg)
        } else {
            None
        };
        let last_received_envelope = if self.cursor > 0 {
            Some(self.schedule.steps[self.cursor - 1].clone_envelope())
        } else {
            None
        };
        Status { frame_count, step_count, current_op, next_op, last_received_envelope }
    }

    /// Discards every baseline at or past cursor position `c`.
    fn retain_baselines_below(&mut self, c: usize)
        ensures
            final(self).schedule == old(self).schedule,
            final(self).cursor == old(self).cursor,
            final(self).entries == old(self).entries,
            final(self).history == old(self).history,
            bview(final(self).baselines) == invalidated(bview(old(self).baselines), c as int),
    {
        let ghost bs = bview(self.baselines);
        let mut kept: Vec<Baseline> = Vec::new();
        let mut i: usize = 0;
        proof {
            assert(bs.skip(0) =~= bs);
            assert(bview(kept) =~= Seq::<BaselineView>::empty());
            assert(bview(kept) + invalidated(bs, c as int) =~= invalidated(bs, c as int));
        }
        while i < self.baselines.len()
            invariant
                i <= self.baselines.len(),
                bs == bview(self.baselines),
                bs.len() == self.baselines@.len(),
                invalidated(bs, c as int) == bview(kept) + invalidated(bs.skip(i as int), c as int),
            decreases self.baselines.len() - i,
        {
            let ghost rest = bs.skip(i as int);
            let ghost kv = bview(kept);
            proof {
                assert(rest[0] == bs[i as int]);
                assert(rest.drop_first() =~= bs.skip(i + 1));
                assert(bs[i as int] == self.baselines@[i as int]@);
            }
            if self.baselines[i].pos < c {
                let b = &self.baselines[i];
                kept.push(
                    Baseline {
                        replica: b.replica.clone_replica(),
                        pos: b.pos,
                        state: b.state.clone_state(),
                    },
                );
                proof {
                    assert(bview(kept) =~= kv.push(rest[0]));
                    assert(invalidated(rest, c as int) == seq![rest[0]] + invalidated(
                        rest.drop_first(),
                        c as int,
                    ));
                    assert(kv + (seq![rest[0]] + invalidated(bs.skip(i + 1), c as int))
                        =~= kv.push(rest[0]) + invalidated(bs.skip(i + 1), c as int));
                }
            } else {
                proof {
                    assert(invalidated(rest, c as int) == invalidated(rest.drop_first(), c as int));
                }
            }
            proof {
                assert(invalidated(bs, c as int) == bview(kept) + invalidated(bs.skip(i + 1),
                    c as int));
            }
            i = i + 1;
        }
        proof {
            assert(bs.skip(i as int) =~= Seq::<BaselineView>::empty());
            assert(invalidated(bs, c as int) =~= bview(kept));
        }
        self.baselines = kept;
    }
}

/// Applying an envelope to a store where its recipient exists updates
/// that entry in place and leaves `find_idx` unchanged; writing the old
/// state back restores the store exactly.
proof fn lemma_restore_update(es: Seq<EntryView>, e: EnvelopeView)
    requires
        has_key(es, e.to),
    ensures
        find_idx(apply_env(es, e), e.to) == find_idx(es, e.to),
        has_key(apply_env(es, e), e.to),
        apply_env(es, e).len() == es.len(),
        apply_env(es, e).update(
            find_idx(es, e.to),
            (EntryView { replica: e.to, state: es[find_idx(es, e.to)].state }),
        ) == es,
{
    let i = find_idx(es, e.to);
    lemma_find_idx(es, e.to);
    let es2 = apply_env(es, e);
    assert forall|m: int| 0 <= m < i implies es2[m].replica != e.to by {
        assert(es2[m] == es[m]);
    }
    lemma_find_idx_of_first(es2, e.to, i);
    assert(es2.update(i, (EntryView { replica: e.to, state: es[i].state })) =~= es);
}

/// Applying an envelope to a store where its recipient is absent pushes
/// a fresh entry at the end; popping it restores the store exactly.
proof fn lemma_restore_push(es: Seq<EntryView>, e: EnvelopeView)
    requires
        !has_key(es, e.to),
    ensures
        apply_env(es, e) == es.push(
            (EntryView { replica: e.to, state: apply_msg_spec(initial_state(), e.msg) }),
        ),
        find_idx(apply_env(es, e), e.to) == es.len(),
        apply_env(es, e).len() == es.len() + 1,
        apply_env(es, e).drop_last() == es,
{
    lemma_find_idx(es, e.to);
    let es2 = apply_env(es, e);
    assert forall|m: int| 0 <= m < es.len() implies es2[m].replica != e.to by {
        assert(es2[m] == es[m]);
    }
    lemma_find_idx_of_first(es2, e.to, es.len() as int);
    assert(es2.drop_last() =~= es);
}

} // verus!
