//! The immutable event log: a totally ordered sequence of steps,
//! partitioned into frames.
//!
//! A frame is one externally injected test action together with the
//! inter-replica message deliveries it caused.  Frame `i` covers the
//! steps from `frames[i - 1].end` (or 0) up to `frames[i].end` of the
//! flattened, globally ordered step sequence.

use vstd::prelude::*;
use crate::protocol::{Envelope, EnvelopeView};

verus! {

/// One frame of the log: the identifier of the test action that opened
/// it, and the index just past its last step.
#[derive(Clone, Copy, Debug, PartialEq, Eq, Structural)]
pub struct FrameMeta {
    pub action: u64,
    pub end: usize,
}

impl View for FrameMeta {
    type V = FrameMeta;

    open spec fn view(&self) -> FrameMeta {
        *self
    }
}

/// The loaded schedule: frame metadata plus the flattened steps.
#[derive(Debug, PartialEq)]
pub struct Schedule {
    pub frames: Vec<FrameMeta>,
    pub steps: Vec<Envelope>,
}

/// Mathematical view of a `Schedule`.
#[verifier::ext_equal]
pub struct ScheduleView {
    pub frames: Seq<FrameMeta>,
    pub steps: Seq<EnvelopeView>,
}

impl View for Schedule {
    type V = ScheduleView;

    open spec fn view(&self) -> ScheduleView {
        ScheduleView {
            frames: self.frames@,
            steps: self.steps@.map_values(|e: Envelope| e@),
        }
    }
}

/// Well-formedness of a schedule: frame ends are within the log and
/// non-decreasing, the last frame ends exactly at the end of the log,
/// and a schedule without frames has no steps.
pub open spec fn sched_wf(s: ScheduleView) -> bool {
    &&& forall|i: int| 0 <= i < s.frames.len() ==> #[trigger] s.frames[i].end <= s.steps.len()
    &&& forall|i: int, j: int|
        0 <= i <= j < s.frames.len() ==> #[trigger] s.frames[i].end <= #[trigger] s.frames[j].end
    &&& s.frames.len() > 0 ==> s.frames[s.frames.len() - 1].end == s.steps.len()
    &&& s.frames.len() == 0 ==> s.steps.len() == 0
}

/// Whether cursor position `c` lies on a frame boundary: the start of
/// the log, or the end of some frame.
pub open spec fn is_frame_boundary(s: ScheduleView, c: int) -> bool {
    c == 0 || exists|i: int| 0 <= i < s.frames.len() && #[trigger] s.frames[i].end == c
}

/// Whether `b` is the nearest frame boundary strictly after `c`: a
/// boundary past `c`, no farther than any frame end past `c`.
pub open spec fn is_next_boundary(s: ScheduleView, c: int, b: int) -> bool {
    &&& is_frame_boundary(s, b)
    &&& c < b <= s.steps.len()
    &&& forall|i: int|
        0 <= i < s.frames.len() && #[trigger] s.frames[i].end > c ==> b <= s.frames[i].end
}

/// The nearest frame boundary strictly after `c`.
pub open spec fn next_boundary(s: ScheduleView, c: int) -> int {
    choose|b: int| is_next_boundary(s, c, b)
}

/// Whether `b` is the nearest frame boundary strictly before `c`: a
/// boundary short of `c`, no nearer than any frame end short of `c`.
pub open spec fn is_prev_boundary(s: ScheduleView, c: int, b: int) -> bool {
    &&& is_frame_boundary(s, b)
    &&& 0 <= b < c
    &&& forall|i: int|
        0 <= i < s.frames.len() && #[trigger] s.frames[i].end < c ==> s.frames[i].end <= b
}

/// The nearest frame boundary strictly before `c`.
pub open spec fn prev_boundary(s: ScheduleView, c: int) -> int {
    choose|b: int| is_prev_boundary(s, c, b)
}

/// A witness pins `next_boundary`.
pub proof fn lemma_next_boundary_pins(s: ScheduleView, c: int, b: int)
    requires
        0 <= c,
        is_next_boundary(s, c, b),
    ensures
        next_boundary(s, c) == b,
{
    let w = next_boundary(s, c);
    assert(is_next_boundary(s, c, w));
    assert(b != 0);
    assert(w != 0);
    let bi = choose|i: int| 0 <= i < s.frames.len() && #[trigger] s.frames[i].end == b;
    let wi = choose|i: int| 0 <= i < s.frames.len() && #[trigger] s.frames[i].end == w;
    assert(w <= s.frames[bi].end);
    assert(b <= s.frames[wi].end);
}

/// A witness pins `prev_boundary`.
pub proof fn lemma_prev_boundary_pins(s: ScheduleView, c: int, b: int)
    requires
        is_prev_boundary(s, c, b),
    ensures
        prev_boundary(s, c) == b,
{
    let w = prev_boundary(s, c);
    assert(is_prev_boundary(s, c, w));
    if b != 0 {
        let bi = choose|i: int| 0 <= i < s.frames.len() && #[trigger] s.frames[i].end == b;
        assert(s.frames[bi].end <= w);
    }
    if w != 0 {
        let wi = choose|i: int| 0 <= i < s.frames.len() && #[trigger] s.frames[i].end == w;
        assert(s.frames[wi].end <= b);
    }
}

/// An empty schedule.
pub fn empty_schedule() -> (r: Schedule)
    ensures
        r@.frames == Seq::<FrameMeta>::empty(),
        r@.steps == Seq::<EnvelopeView>::empty(),
        sched_wf(r@),
{
    let r = Schedule { frames: Vec::new(), steps: Vec::new() };
    proof {
        assert(r@.frames =~= Seq::<FrameMeta>::empty());
        assert(r@.steps =~= Seq::<EnvelopeView>::empty());
    }
    r
}

} // verus!
