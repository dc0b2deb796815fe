//! The reconstructed protocol state of one participant, the messages
//! that drive it, and the structural difference between two states.
//!
//! The replay engine needs only that a state is applicable, revertible,
//! cloneable and structurally comparable; the transition itself is a pure
//! function of the prior state and the delivered message.

use vstd::prelude::*;
use crate::replica::{Replica, ReplicaView};

verus! {

/// One inter-replica protocol message: the sender's view number, the
/// operation it carries, and the sender's commit point.
#[derive(Clone, Copy, Debug, PartialEq, Eq, Structural)]
pub struct Msg {
    pub view: u64,
    pub op: u64,
    pub commit: u64,
}

impl View for Msg {
    type V = Msg;

    open spec fn view(&self) -> Msg {
        *self
    }
}

/// A message plus its routing metadata: sender, recipient and a logical
/// timestamp.
#[derive(Clone, Debug, PartialEq)]
pub struct Envelope {
    pub from: Replica,
    pub to: Replica,
    pub time: u64,
    pub msg: Msg,
}

/// Mathematical view of an `Envelope`.
#[verifier::ext_equal]
pub struct EnvelopeView {
    pub from: ReplicaView,
    pub to: ReplicaView,
    pub time: u64,
    pub msg: Msg,
}

impl View for Envelope {
    type V = EnvelopeView;

    open spec fn view(&self) -> EnvelopeView {
        EnvelopeView { from: self.from@, to: self.to@, time: self.time, msg: self.msg }
    }
}

impl Envelope {
    /// An exact copy of this envelope.
    pub fn clone_envelope(&self) -> (r: Envelope)
        ensures
            r@ == self@,
    {
        Envelope {
            from: self.from.clone_replica(),
            to: self.to.clone_replica(),
            time: self.time,
            msg: self.msg,
        }
    }
}

/// The full reconstructed state of one participant: its view number, its
/// commit point, and the ordered log of operations it has accepted.
#[derive(Clone, Debug, PartialEq)]
pub struct ProtocolState {
    pub view: u64,
    pub commit: u64,
    pub log: Vec<u64>,
}

/// Mathematical view of a `ProtocolState`.
#[verifier::ext_equal]
pub struct ProtocolStateView {
    pub view: u64,
    pub commit: u64,
    pub log: Seq<u64>,
}

impl View for ProtocolState {
    type V = ProtocolStateView;

    open spec fn view(&self) -> ProtocolStateView {
        ProtocolStateView { view: self.view, commit: self.commit, log: self.log@ }
    }
}

/// The initial state of a participant that no step has touched yet.
pub open spec fn initial_state() -> ProtocolStateView {
    ProtocolStateView { view: 0, commit: 0, log: Seq::empty() }
}

/// Whether the protocol rules reject `m` in state `s`: a message from an
/// older view is refused and leaves the state unchanged.
pub open spec fn rejects(s: ProtocolStateView, m: Msg) -> bool {
    m.view < s.view
}

/// The pure transition function: the state after delivering `m` to a
/// participant in state `s`.  A rejected message changes nothing; an
/// accepted one adopts the message's view, appends its operation, and
/// advances the commit point monotonically.
pub open spec fn apply_msg_spec(s: ProtocolStateView, m: Msg) -> ProtocolStateView {
    if rejects(s, m) {
        s
    } else {
        ProtocolStateView {
            view: m.view,
            commit: if m.commit > s.commit {
                m.commit
            } else {
                s.commit
            },
            log: s.log.push(m.op),
        }
    }
}

impl ProtocolState {
    /// A fresh participant state.
    pub fn initial() -> (r: ProtocolState)
        ensures
            r@ == initial_state(),
    {
        let r = ProtocolState { view: 0, commit: 0, log: Vec::new() };
        proof {
            assert(r@.log =~= Seq::<u64>::empty());
        }
        r
    }

    /// Delivers one message, returning the successor state and whether
    /// the protocol rules rejected the message.
    pub fn apply_msg(&self, m: &Msg) -> (r: (ProtocolState, bool))
        ensures
            r.0@ == apply_msg_spec(self@, *m),
            r.1 == rejects(self@, *m),
    {
        if m.view < self.view {
            (self.clone_state(), true)
        } else {
            let mut log = self.clone_log();
            log.push(m.op);
            let commit = if m.commit > self.commit {
                m.commit
            } else {
                self.commit
            };
            (ProtocolState { view: m.view, commit, log }, false)
        }
    }

    /// An exact copy of this state.
    pub fn clone_state(&self) -> (r: ProtocolState)
        ensures
            r@ == self@,
    {
        ProtocolState { view: self.view, commit: self.commit, log: self.clone_log() }
    }

    /// An exact copy of the operation log.
    fn clone_log(&self) -> (r: Vec<u64>)
        ensures
            r@ == self.log@,
    {
        let mut out: Vec<u64> = Vec::new();
        let mut i: usize = 0;
        while i < self.log.len()
            invariant
                i <= self.log.len(),
                out@ == self.log@.take(i as int),
            decreases self.log.len() - i,
        {
            out.push(self.log[i]);
            proof {
                assert(out@ =~= self.log@.take(i + 1));
            }
            i = i + 1;
        }
        proof {
            assert(out@ =~= self.log@);
        }
        out
    }
}

/// The structural difference between a baseline state and a current
/// state: for each field, the (baseline, current) pair where they differ.
#[derive(Clone, Debug, PartialEq)]
pub struct Diff {
    pub view: Option<(u64, u64)>,
    pub commit: Option<(u64, u64)>,
    pub log: Option<(Vec<u64>, Vec<u64>)>,
}

/// Mathematical view of a `Diff`.
#[verifier::ext_equal]
pub struct DiffView {
    pub view: Option<(u64, u64)>,
    pub commit: Option<(u64, u64)>,
    pub log: Option<(Seq<u64>, Seq<u64>)>,
}

impl View for Diff {
    type V = DiffView;

    open spec fn view(&self) -> DiffView {
        DiffView {
            view: self.view,
            commit: self.commit,
            log: match self.log {
                Some((b, c)) => Some((b@, c@)),
                None => None,
            },
        }
    }
}

impl DiffView {
    /// A diff that reports no difference at all.
    pub open spec fn is_empty(self) -> bool {
        self.view is None && self.commit is None && self.log is None
    }
}

impl Diff {
    /// Whether this diff reports no difference at all.
    pub fn is_empty(&self) -> (r: bool)
        ensures
            r == self@.is_empty(),
    {
        self.view.is_none() && self.commit.is_none() && self.log.is_none()
    }
}

/// The structural difference between baseline state `b` and current
/// state `c`.
pub open spec fn diff_spec(b: ProtocolStateView, c: ProtocolStateView) -> DiffView {
    DiffView {
        view: if b.view == c.view {
            None
        } else {
            Some((b.view, c.view))
        },
        commit: if b.commit == c.commit {
            None
        } else {
            Some((b.commit, c.commit))
        },
        log: if b.log == c.log {
            None
        } else {
            Some((b.log, c.log))
        },
    }
}

/// Computes the structural difference of two states, exactly as
/// `diff_spec` states it.
pub fn diff_states(b: &ProtocolState, c: &ProtocolState) -> (r: Diff)
    ensures
        r@ == diff_spec(b@, c@),
{
    let view = if b.view == c.view {
        None
    } else {
        Some((b.view, c.view))
    };
    let commit = if b.commit == c.commit {
        None
    } else {
        Some((b.commit, c.commit))
    };
    let log = if log_eq(&b.log, &c.log) {
        None
    } else {
        Some((b.clone_log(), c.clone_log()))
    };
    Diff { view, commit, log }
}

/// Decides equality of two operation logs, exactly as their views compare.
fn log_eq(a: &Vec<u64>, b: &Vec<u64>) -> (r: bool)
    ensures
        r == (a@ == b@),
{
    if a.len() != b.len() {
        proof {
            assert(a@ != b@);
        }
        return false;
    }
    let mut i: usize = 0;
    while i < a.len()
        invariant
            a@.len() == b@.len(),
            i <= a@.len(),
            forall|k: int| 0 <= k < i ==> a@[k] == b@[k],
        decreases a.len() - i,
    {
        if a[i] != b[i] {
            proof {
                assert(a@[i as int] != b@[i as int]);
            }
            return false;
        }
        i = i + 1;
    }
    proof {
        assert(a@ =~= b@);
    }
    true
}

} // verus!
