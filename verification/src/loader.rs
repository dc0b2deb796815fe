//! The schedule loader: a deterministic parser from raw trace bytes to
//! the immutable event log.
//!
//! The trace encoding is, in order: a one-byte schema version; the
//! frame count and step count as little-endian 64-bit integers; per
//! frame its test-action identifier and its end index; then each step's
//! envelope (sender, recipient, timestamp, message).  Identifiers are
//! length-prefixed ASCII strings; tenants are 128-bit integers.  The
//! same bytes always parse to the same log, and any malformed or
//! trailing input is rejected rather than partially accepted.

use vstd::prelude::*;
use crate::protocol::{Envelope, EnvelopeView, Msg};
use crate::replica::{Member, MemberView, Replica, ReplicaView};
use crate::schedule::{sched_wf, FrameMeta, Schedule, ScheduleView};

verus! {

/// Why a trace cannot be loaded.
#[derive(Clone, Copy, Debug, PartialEq, Eq, Structural)]
pub enum LoadError {
    /// The bytes do not encode a schedule.
    ParseError,
    /// The schema version is not the supported one.
    VersionMismatch,
}

/// The supported schema version.
pub const TRACE_VERSION: u8 = 1;

/// The value of the 8 little-endian bytes at `i`.
pub open spec fn le64_at(b: Seq<u8>, i: int) -> int {
    b[i] + b[i + 1] * 0x100 + b[i + 2] * 0x1_0000 + b[i + 3] * 0x100_0000 + b[i + 4]
        * 0x1_0000_0000 + b[i + 5] * 0x100_0000_0000 + b[i + 6] * 0x1_0000_0000_0000 + b[i + 7]
        * 0x100_0000_0000_0000
}

/// The value of the 16 little-endian bytes at `i`.
pub open spec fn le128_at(b: Seq<u8>, i: int) -> int {
    le64_at(b, i) + le64_at(b, i + 8) * 0x1_0000_0000_0000_0000
}

/// Parses a 64-bit integer at `i`.
pub open spec fn p_u64(b: Seq<u8>, i: int) -> Option<(u64, int)> {
    if 0 <= i && i + 8 <= b.len() {
        Some((le64_at(b, i) as u64, i + 8))
    } else {
        None
    }
}

/// Parses a 128-bit integer at `i`.
pub open spec fn p_u128(b: Seq<u8>, i: int) -> Option<(u128, int)> {
    if 0 <= i && i + 16 <= b.len() {
        Some((le128_at(b, i) as u128, i + 16))
    } else {
        None
    }
}

/// Parses a length-prefixed ASCII string at `i`.
pub open spec fn p_string(b: Seq<u8>, i: int) -> Option<(Seq<char>, int)> {
    match p_u64(b, i) {
        None => None,
        Some((l, j)) => {
            if l <= 0xFFFF_FFFF && j + l <= b.len() && (forall|k: int|
                j <= k < j + l ==> b[k] < 128) {
                Some((b.subrange(j, j + l).map_values(|x: u8| x as char), j + l))
            } else {
                None
            }
        },
    }
}

/// Parses a member (node) at `i`: name and the three host fields.
pub open spec fn p_member(b: Seq<u8>, i: int) -> Option<(MemberView, int)> {
    match p_string(b, i) {
        None => None,
        Some((name, i1)) => match p_string(b, i1) {
            None => None,
            Some((cluster_host, i2)) => match p_string(b, i2) {
                None => None,
                Some((vr_host, i3)) => match p_string(b, i3) {
                    None => None,
                    Some((vr_api_host, i4)) => Some(
                        (MemberView { name, cluster_host, vr_host, vr_api_host }, i4),
                    ),
                },
            },
        },
    }
}

/// Parses a replica identity at `i`: tenant, name, node.
pub open spec fn p_replica(b: Seq<u8>, i: int) -> Option<(ReplicaView, int)> {
    match p_u128(b, i) {
        None => None,
        Some((tenant, i1)) => match p_string(b, i1) {
            None => None,
            Some((name, i2)) => match p_member(b, i2) {
                None => None,
                Some((node, i3)) => Some((ReplicaView { tenant, name, node }, i3)),
            },
        },
    }
}

/// Parses one step's envelope at `i`: sender, recipient, timestamp and
/// the message fields.
pub open spec fn p_step(b: Seq<u8>, i: int) -> Option<(EnvelopeView, int)> {
    match p_replica(b, i) {
        None => None,
        Some((from, i1)) => match p_replica(b, i1) {
            None => None,
            Some((to, i2)) => match p_u64(b, i2) {
                None => None,
                Some((time, i3)) => match p_u64(b, i3) {
                    None => None,
                    Some((view, i4)) => match p_u64(b, i4) {
                        None => None,
                        Some((op, i5)) => match p_u64(b, i5) {
                            None => None,
                            Some((commit, i6)) => Some(
                                (
                                    EnvelopeView {
                                        from,
                                        to,
                                        time,
                                        msg: Msg { view, op, commit },
                                    },
                                    i6,
                                ),
                            ),
                        },
                    },
                },
            },
        },
    }
}

/// Parses one frame's metadata at `i`: action identifier and end index.
pub open spec fn p_frame(b: Seq<u8>, i: int) -> Option<(FrameMeta, int)> {
    match p_u64(b, i) {
        None => None,
        Some((action, i1)) => match p_u64(b, i1) {
            None => None,
            Some((end, i2)) => {
                if end <= 0xFFFF_FFFF {
                    Some((FrameMeta { action, end: end as usize }, i2))
                } else {
                    None
                }
            },
        },
    }
}

/// Parses `n` frames at `i`.
pub open spec fn p_frames(b: Seq<u8>, i: int, n: nat) -> Option<(Seq<FrameMeta>, int)>
    decreases n,
{
    if n == 0 {
        Some((Seq::empty(), i))
    } else {
        match p_frame(b, i) {
            None => None,
            Some((f, j)) => match p_frames(b, j, (n - 1) as nat) {
                None => None,
                Some((rest, e)) => Some((seq![f] + rest, e)),
            },
        }
    }
}

/// Parses `n` steps at `i`.
pub open spec fn p_steps(b: Seq<u8>, i: int, n: nat) -> Option<(Seq<EnvelopeView>, int)>
    decreases n,
{
    if n == 0 {
        Some((Seq::empty(), i))
    } else {
        match p_step(b, i) {
            None => None,
            Some((s, j)) => match p_steps(b, j, (n - 1) as nat) {
                None => None,
                Some((rest, e)) => Some((seq![s] + rest, e)),
            },
        }
    }
}

/// What loading yields for the given bytes: the schedule, or the
/// reason the bytes are rejected.  Identical bytes always yield the
/// identical schedule.
pub open spec fn parse_schedule_spec(b: Seq<u8>) -> Result<ScheduleView, LoadError> {
    if b.len() == 0 {
        Result::<ScheduleView, LoadError>::Err(LoadError::ParseError)
    } else if b[0] != TRACE_VERSION {
        Result::<ScheduleView, LoadError>::Err(LoadError::VersionMismatch)
    } else {
        match p_u64(b, 1) {
            None => Result::<ScheduleView, LoadError>::Err(LoadError::ParseError),
            Some((f, i)) => match p_u64(b, i) {
                None => Result::<ScheduleView, LoadError>::Err(LoadError::ParseError),
                Some((s, j)) => {
                    if f > 0xFFFF_FFFF || s > 0xFFFF_FFFF {
                        Result::<ScheduleView, LoadError>::Err(LoadError::ParseError)
                    } else {
                        match p_frames(b, j, f as nat) {
                            None => Result::<ScheduleView, LoadError>::Err(LoadError::ParseError),
                            Some((frames, k)) => match p_steps(b, k, s as nat) {
                                None => Result::<ScheduleView, LoadError>::Err(
                                    LoadError::ParseError,
                                ),
                                Some((steps, m)) => {
                                    if m == b.len() && sched_wf(
                                        (ScheduleView { frames, steps }),
                                    ) {
                                        Result::<ScheduleView, LoadError>::Ok(
                                            (ScheduleView { frames, steps }),
                                        )
                                    } else {
                                        Result::<ScheduleView, LoadError>::Err(
                                            LoadError::ParseError,
                                        )
                                    }
                                },
                            },
                        }
                    }
                },
            },
        }
    }
}

/// Relies on std's `String::push`: appends the given character.
#[verifier::external_body]
fn push_char(s: &mut String, c: char)
    ensures
        final(s)@ == old(s)@.push(c),
{
    s.push(c)
}

/// Reads a 64-bit integer, exactly as `p_u64` states it.
fn read_u64(b: &Vec<u8>, i: usize) -> (r: Option<(u64, usize)>)
    ensures
        match r {
            Some((v, j)) => p_u64(b@, i as int) == Some((v, j as int)),
            None => p_u64(b@, i as int) is None,
        },
{
    if b.len() < 8 || i > b.len() - 8 {
        return None;
    }
    let v: u64 = (b[i] as u64) + (b[i + 1] as u64) * 0x100 + (b[i + 2] as u64) * 0x1_0000 + (b[i
        + 3] as u64) * 0x100_0000 + (b[i + 4] as u64) * 0x1_0000_0000 + (b[i + 5] as u64)
        * 0x100_0000_0000 + (b[i + 6] as u64) * 0x1_0000_0000_0000 + (b[i + 7] as u64)
        * 0x100_0000_0000_0000;
    Some((v, i + 8))
}

/// Reads a 128-bit integer, exactly as `p_u128` states it.
fn read_u128(b: &Vec<u8>, i: usize) -> (r: Option<(u128, usize)>)
    ensures
        match r {
            Some((v, j)) => p_u128(b@, i as int) == Some((v, j as int)),
            None => p_u128(b@, i as int) is None,
        },
{
    if b.len() < 16 || i > b.len() - 16 {
        return None;
    }
    let lo = match read_u64(b, i) {
        Some((v, _j)) => v,
        None => {
            proof {
                assert(false);
            }
            0
        },
    };
    let hi = match read_u64(b, i + 8) {
        Some((v, _j)) => v,
        None => {
            proof {
                assert(false);
            }
            0
        },
    };
    let v: u128 = (lo as u128) + (hi as u128) * 0x1_0000_0000_0000_0000;
    proof {
        assert(le64_at(b@, i as int) >= 0);
        assert(le64_at(b@, i + 8) >= 0);
        assert(le64_at(b@, i as int) < 0x1_0000_0000_0000_0000) by {
            assert(b@[i as int] <= 255 && b@[i + 1] <= 255 && b@[i + 2] <= 255 && b@[i + 3] <= 255
                && b@[i + 4] <= 255 && b@[i + 5] <= 255 && b@[i + 6] <= 255 && b@[i + 7] <= 255);
        }
        assert(v as int == le128_at(b@, i as int));
    }
    Some((v, i + 16))
}

/// Reads a length-prefixed ASCII string, exactly as `p_string` states
/// it.
#[verifier::loop_isolation(false)]
fn read_string(b: &Vec<u8>, i: usize) -> (r: Option<(String, usize)>)
    ensures
        match r {
            Some((s, j)) => p_string(b@, i as int) matches Some((sv, jv)) && s@ == sv && j as int
                == jv,
            None => p_string(b@, i as int) is None,
        },
{
    let (l, j) = match read_u64(b, i) {
        Some(x) => x,
        None => {
            return None;
        },
    };
    if l > 0xFFFF_FFFF {
        return None;
    }
    let lu = l as usize;
    proof {
        assert(lu as int == l as int);
    }
    if b.len() < lu || j > b.len() - lu {
        return None;
    }
    let ghost target = b@.subrange(j as int, j + l).map_values(|x: u8| x as char);
    let mut s = String::new();
    let mut k: usize = 0;
    proof {
        assert(s@ =~= target.take(0));
    }
    while k < lu
        invariant
            j + lu <= b@.len(),
            lu as int == l as int,
            k <= lu,
            target == b@.subrange(j as int, j + l).map_values(|x: u8| x as char),
            forall|m: int| j <= m < j + k ==> b@[m] < 128,
            s@ == target.take(k as int),
        decreases lu - k,
    {
        let byte = b[j + k];
        if byte >= 128 {
            proof {
                assert(b@[j + k] >= 128);
            }
            return None;
        }
        push_char(&mut s, byte as char);
        proof {
            assert(target[k as int] == b@.subrange(j as int, j + l)[k as int] as char);
            assert(b@.subrange(j as int, j + l)[k as int] == b@[j + k]);
            assert(s@ =~= target.take(k + 1));
        }
        k = k + 1;
    }
    proof {
        assert(s@ =~= target);
        assert(forall|m: int| j <= m < j + l ==> b@[m] < 128);
    }
    Some((s, j + lu))
}

/// Reads a member, exactly as `p_member` states it.
fn read_member(b: &Vec<u8>, i: usize) -> (r: Option<(Member, usize)>)
    ensures
        match r {
            Some((m, j)) => p_member(b@, i as int) matches Some((mv, jv)) && m@ == mv && j as int
                == jv,
            None => p_member(b@, i as int) is None,
        },
{
    let (name, i1) = match read_string(b, i) {
        Some(x) => x,
        None => {
            return None;
        },
    };
    let (cluster_host, i2) = match read_string(b, i1) {
        Some(x) => x,
        None => {
            return None;
        },
    };
    let (vr_host, i3) = match read_string(b, i2) {
        Some(x) => x,
        None => {
            return None;
        },
    };
    let (vr_api_host, i4) = match read_string(b, i3) {
        Some(x) => x,
        None => {
            return None;
        },
    };
    Some((Member { name, cluster_host, vr_host, vr_api_host }, i4))
}

/// Reads a replica identity, exactly as `p_replica` states it.
fn read_replica(b: &Vec<u8>, i: usize) -> (r: Option<(Replica, usize)>)
    ensures
        match r {
            Some((rep, j)) => p_replica(b@, i as int) matches Some((rv, jv)) && rep@ == rv
                && j as int == jv,
            None => p_replica(b@, i as int) is None,
        },
{
    let (tenant, i1) = match read_u128(b, i) {
        Some(x) => x,
        None => {
            return None;
        },
    };
    let (name, i2) = match read_string(b, i1) {
        Some(x) => x,
        None => {
            return None;
        },
    };
    let (node, i3) = match read_member(b, i2) {
        Some(x) => x,
        None => {
            return None;
        },
    };
    Some((Replica { tenant, name, node }, i3))
}

/// Reads one step's envelope, exactly as `p_step` states it.
fn read_step(b: &Vec<u8>, i: usize) -> (r: Option<(Envelope, usize)>)
    ensures
        match r {
            Some((e, j)) => p_step(b@, i as int) matches Some((ev, jv)) && e@ == ev && j as int
                == jv,
            None => p_step(b@, i as int) is None,
        },
{
    let (from, i1) = match read_replica(b, i) {
        Some(x) => x,
        None => {
            return None;
        },
    };
    let (to, i2) = match read_replica(b, i1) {
        Some(x) => x,
        None => {
            return None;
        },
    };
    let (time, i3) = match read_u64(b, i2) {
        Some(x) => x,
        None => {
            return None;
        },
    };
    let (view, i4) = match read_u64(b, i3) {
        Some(x) => x,
        None => {
            return None;
        },
    };
    let (op, i5) = match read_u64(b, i4) {
        Some(x) => x,
        None => {
            return None;
        },
    };
    let (commit, i6) = match read_u64(b, i5) {
        Some(x) => x,
        None => {
            return None;
        },
    };
    Some((Envelope { from, to, time, msg: Msg { view, op, commit } }, i6))
}

/// Reads one frame's metadata, exactly as `p_frame` states it.
fn read_frame(b: &Vec<u8>, i: usize) -> (r: Option<(FrameMeta, usize)>)
    ensures
        match r {
            Some((f, j)) => p_frame(b@, i as int) == Some((f, j as int)),
            None => p_frame(b@, i as int) is None,
        },
{
    let (action, i1) = match read_u64(b, i) {
        Some(x) => x,
        None => {
            return None;
        },
    };
    let (end, i2) = match read_u64(b, i1) {
        Some(x) => x,
        None => {
            return None;
        },
    };
    if end > 0xFFFF_FFFF {
        return None;
    }
    let eu = end as usize;
    proof {
        assert(eu as int == end as int);
    }
    Some((FrameMeta { action, end: eu }, i2))
}

/// Adjacent order of frame ends extends to all pairs.
proof fn lemma_ends_sorted(fs: Seq<FrameMeta>, i: int, j: int)
    requires
        forall|m: int| 1 <= m < fs.len() ==> #[trigger] fs[m - 1].end <= fs[m].end,
        0 <= i <= j < fs.len(),
    ensures
        fs[i].end <= fs[j].end,
    decreases j - i,
{
    if i < j {
        lemma_ends_sorted(fs, i, j - 1);
        assert(fs[j - 1].end <= fs[j].end);
    }
}

/// Checks well-formedness of parsed frames against the step count,
/// exactly as `sched_wf` states it.
#[verifier::loop_isolation(false)]
fn check_frames(frames: &Vec<FrameMeta>, steps: &Vec<Envelope>) -> (r: bool)
    ensures
        r == sched_wf(
            (ScheduleView {
                frames: frames@,
                steps: steps@.map_values(|e: Envelope| e@),
            }),
        ),
{
    let ghost sv = ScheduleView { frames: frames@, steps: steps@.map_values(|e: Envelope| e@) };
    proof {
        assert(sv.steps.len() == steps@.len());
    }
    let total = steps.len();
    if frames.len() == 0 {
        return total == 0;
    }
    if frames[frames.len() - 1].end != total {
        return false;
    }
    let mut i: usize = 0;
    while i < frames.len()
        invariant
            sv.frames == frames@,
            sv.steps.len() == steps@.len(),
            total == steps@.len(),
            i <= frames@.len(),
            forall|m: int| 0 <= m < i ==> #[trigger] frames@[m].end <= total,
            forall|m: int| 1 <= m < i ==> #[trigger] frames@[m - 1].end <= frames@[m].end,
        decreases frames@.len() - i,
    {
        if frames[i].end > total {
            return false;
        }
        if i > 0 && frames[i - 1].end > frames[i].end {
            return false;
        }
        i = i + 1;
    }
    proof {
        assert forall|a: int, b: int| 0 <= a <= b < sv.frames.len() implies #[trigger] sv
            .frames[a].end <= #[trigger] sv.frames[b].end by {
            lemma_ends_sorted(sv.frames, a, b);
        }
        assert(sched_wf(sv));
    }
    true
}

/// Parses a whole trace, exactly as `parse_schedule_spec` states it:
/// the same bytes always yield the same schedule, and malformed bytes
/// are rejected as a whole.
/// Reads `n` frames, exactly as `p_frames` states it.
#[verifier::loop_isolation(false)]
fn read_frames(bytes: &Vec<u8>, start: usize, n: u64) -> (r: Option<(Vec<FrameMeta>, usize)>)
    requires
        n <= 0xFFFF_FFFF,
    ensures
        match r {
            Some((fs, e)) => p_frames(bytes@, start as int, n as nat) == Some((fs@, e as int)),
            None => p_frames(bytes@, start as int, n as nat) is None,
        },
{
    let count = n as usize;
    proof {
        assert(count as int == n as int);
    }
    let mut frames: Vec<FrameMeta> = Vec::new();
    let mut pos: usize = start;
    let mut k: usize = 0;
    proof {
        assert(frames@ =~= Seq::<FrameMeta>::empty());
    }
    while k < count
        invariant
            k <= count,
            frames@.len() == k,
            p_frames(bytes@, start as int, n as nat) == (match p_frames(
                bytes@,
                pos as int,
                (n - k) as nat,
            ) {
                Some((rest, e)) => Some((frames@ + rest, e)),
                None => None::<(Seq<FrameMeta>, int)>,
            }),
        decreases count - k,
    {
        let (fm, np) = match read_frame(bytes, pos) {
            Some(x) => x,
            None => {
                return None;
            },
        };
        let ghost fv = frames@;
        frames.push(fm);
        proof {
            match p_frames(bytes@, np as int, (n - k - 1) as nat) {
                Some((rest, _e)) => {
                    assert(fv + (seq![fm] + rest) =~= (fv.push(fm)) + rest);
                },
                None => {},
            }
        }
        pos = np;
        k = k + 1;
    }
    proof {
        assert(p_frames(bytes@, pos as int, 0) == Some((Seq::<FrameMeta>::empty(), pos as int)));
        assert(frames@ + Seq::<FrameMeta>::empty() =~= frames@);
    }
    Some((frames, pos))
}

/// Reads `n` steps, exactly as `p_steps` states it.
#[verifier::rlimit(100)]
#[verifier::spinoff_prover]
#[verifier::loop_isolation(false)]
fn read_steps(bytes: &Vec<u8>, start: usize, n: u64) -> (r: Option<(Vec<Envelope>, usize)>)
    requires
        n <= 0xFFFF_FFFF,
    ensures
        match r {
            Some((ss, e)) => p_steps(bytes@, start as int, n as nat) == Some(
                (ss@.map_values(|e2: Envelope| e2@), e as int),
            ),
            None => p_steps(bytes@, start as int, n as nat) is None,
        },
{
    let count = n as usize;
    proof {
        assert(count as int == n as int);
    }
    let mut steps: Vec<Envelope> = Vec::new();
    let mut pos: usize = start;
    let mut m: usize = 0;
    proof {
        assert(steps@.map_values(|e2: Envelope| e2@) =~= Seq::<EnvelopeView>::empty());
    }
    while m < count
        invariant
            m <= count,
            steps@.len() == m,
            p_steps(bytes@, start as int, n as nat) == (match p_steps(
                bytes@,
                pos as int,
                (n - m) as nat,
            ) {
                Some((rest, e)) => Some((steps@.map_values(|e2: Envelope| e2@) + rest, e)),
                None => None::<(Seq<EnvelopeView>, int)>,
            }),
        decreases count - m,
    {
        let (st, np) = match read_step(bytes, pos) {
            Some(x) => x,
            None => {
                return None;
            },
        };
        let ghost svp = steps@.map_values(|e2: Envelope| e2@);
        steps.push(st);
        proof {
            assert(steps@.map_values(|e2: Envelope| e2@) =~= svp.push(st@));
            match p_steps(bytes@, np as int, (n - m - 1) as nat) {
                Some((rest, _e)) => {
                    assert(svp + (seq![st@] + rest) =~= (svp.push(st@)) + rest);
                },
                None => {},
            }
        }
        pos = np;
        m = m + 1;
    }
    proof {
        assert(p_steps(bytes@, pos as int, 0) == Some((Seq::<EnvelopeView>::empty(), pos as int)));
        assert(steps@.map_values(|e2: Envelope| e2@) + Seq::<EnvelopeView>::empty()
            =~= steps@.map_values(|e2: Envelope| e2@));
    }
    Some((steps, pos))
}

/// Parses a whole trace, exactly as `parse_schedule_spec` states it:
/// the same bytes always yield the same schedule, and malformed bytes
/// are rejected as a whole.
#[verifier::rlimit(50)]
pub fn parse_schedule(bytes: &Vec<u8>) -> (r: Result<Schedule, LoadError>)
    ensures
        match r {
            Ok(s) => parse_schedule_spec(bytes@) == Result::<ScheduleView, LoadError>::Ok(s@)
                && sched_wf(s@),
            Err(e) => parse_schedule_spec(bytes@) == Result::<ScheduleView, LoadError>::Err(e),
        },
{
    if bytes.len() == 0 {
        return Err(LoadError::ParseError);
    }
    if bytes[0] != TRACE_VERSION {
        return Err(LoadError::VersionMismatch);
    }
    let (f, i) = match read_u64(bytes, 1) {
        Some(x) => x,
        None => {
            return Err(LoadError::ParseError);
        },
    };
    let (s, j) = match read_u64(bytes, i) {
        Some(x) => x,
        None => {
            return Err(LoadError::ParseError);
        },
    };
    if f > 0xFFFF_FFFF || s > 0xFFFF_FFFF {
        return Err(LoadError::ParseError);
    }
    let (frames, fpos) = match read_frames(bytes, j, f) {
        Some(x) => x,
        None => {
            return Err(LoadError::ParseError);
        },
    };
    let (steps, spos) = match read_steps(bytes, fpos, s) {
        Some(x) => x,
        None => {
            return Err(LoadError::ParseError);
        },
    };
    if spos != bytes.len() {
        return Err(LoadError::ParseError);
    }
    if !check_frames(&frames, &steps) {
        return Err(LoadError::ParseError);
    }
    Ok(Schedule { frames, steps })
}

} // verus!
