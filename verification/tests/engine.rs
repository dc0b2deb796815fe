//! Navigation, state reconstruction, diffing and status reporting.

use replay_debugger::command::{run, Outcome};
use replay_debugger::debugger::{Debugger, DiffError};
use replay_debugger::replica::parse_replica;

fn push_u64(v: &mut Vec<u8>, x: u64) {
    v.extend_from_slice(&x.to_le_bytes());
}

fn push_u128(v: &mut Vec<u8>, x: u128) {
    v.extend_from_slice(&x.to_le_bytes());
}

fn push_str(v: &mut Vec<u8>, s: &str) {
    push_u64(v, s.len() as u64);
    v.extend_from_slice(s.as_bytes());
}

fn push_replica(v: &mut Vec<u8>, name: &str, node: &str) {
    push_u128(v, 0);
    push_str(v, name);
    push_str(v, node);
    push_str(v, "");
    push_str(v, "");
    push_str(v, "");
}

struct StepSpec {
    to_name: &'static str,
    to_node: &'static str,
    view: u64,
    op: u64,
    commit: u64,
}

fn step(to_name: &'static str, to_node: &'static str, view: u64, op: u64, commit: u64) -> StepSpec {
    StepSpec { to_name, to_node, view, op, commit }
}

/// Builds a trace: `ends[i]` is the end index of frame `i`.
fn trace(ends: &[u64], steps: &[StepSpec]) -> Vec<u8> {
    let mut v = vec![1u8];
    push_u64(&mut v, ends.len() as u64);
    push_u64(&mut v, steps.len() as u64);
    for (i, e) in ends.iter().enumerate() {
        push_u64(&mut v, i as u64); // action id
        push_u64(&mut v, *e);
    }
    for s in steps {
        push_replica(&mut v, "sender", "node0");
        push_replica(&mut v, s.to_name, s.to_node);
        push_u64(&mut v, 7); // timestamp
        push_u64(&mut v, s.view);
        push_u64(&mut v, s.op);
        push_u64(&mut v, s.commit);
    }
    v
}

/// Two frames over five steps: frame 0 holds steps 0..2, frame 1 holds 2..5.
fn five_step_debugger() -> Debugger {
    let bytes = trace(
        &[2, 5],
        &[
            step("r1", "node1", 1, 10, 0),
            step("r2", "node2", 1, 11, 0),
            step("r1", "node1", 1, 12, 1),
            step("r2", "node2", 2, 13, 1),
            step("r1", "node1", 2, 14, 2),
        ],
    );
    let mut d = Debugger::new();
    assert!(d.load_schedule(&bytes).is_ok());
    d
}

#[test]
fn load_gives_counts() {
    let d = five_step_debugger();
    assert_eq!(d.total_steps(), 5);
    assert_eq!(d.total_frames(), 2);
    assert_eq!(d.position(), 0);
}

#[test]
fn step_forward_reconstructs_state() {
    let mut d = five_step_debugger();
    d.step_forward();
    let r1 = parse_replica("r1::node1").unwrap();
    let st = d.replica_state(&r1).expect("r1 must exist after its first step");
    assert_eq!(st.view, 1);
    assert_eq!(st.commit, 0);
    assert_eq!(st.log, vec![10]);
    // r2 has not been touched yet
    let r2 = parse_replica("r2::node2").unwrap();
    assert!(d.replica_state(&r2).is_none());
}

#[test]
fn states_accumulate_in_order() {
    let mut d = five_step_debugger();
    d.step_forward_n(5);
    let r1 = parse_replica("r1::node1").unwrap();
    let st = d.replica_state(&r1).unwrap();
    assert_eq!(st.view, 2);
    assert_eq!(st.commit, 2);
    assert_eq!(st.log, vec![10, 12, 14]);
    let r2 = parse_replica("r2::node2").unwrap();
    let st2 = d.replica_state(&r2).unwrap();
    assert_eq!(st2.log, vec![11, 13]);
}

#[test]
fn round_trip_restores_states() {
    let mut d = five_step_debugger();
    d.step_forward_n(2);
    let r1 = parse_replica("r1::node1").unwrap();
    let r2 = parse_replica("r2::node2").unwrap();
    let s1 = d.replica_state(&r1);
    let s2 = d.replica_state(&r2);
    d.step_forward_n(3);
    d.step_backward_n(3);
    assert_eq!(d.position(), 2);
    assert_eq!(d.replica_state(&r1), s1);
    assert_eq!(d.replica_state(&r2), s2);
}

#[test]
fn round_trip_removes_created_participants() {
    let mut d = five_step_debugger();
    let r1 = parse_replica("r1::node1").unwrap();
    d.step_forward();
    assert!(d.replica_state(&r1).is_some());
    d.step_backward();
    assert!(d.replica_state(&r1).is_none());
    assert_eq!(d.position(), 0);
}

#[test]
fn bulk_stops_at_end() {
    let mut d = five_step_debugger();
    let out = run(&mut d, "sf 1000");
    assert!(matches!(out, Outcome::Quiet));
    assert_eq!(d.position(), 5);
    let st = d.get_status();
    assert!(st.current_op.is_some());
    assert!(st.next_op.is_none());
}

#[test]
fn bulk_backward_stops_at_start() {
    let mut d = five_step_debugger();
    d.step_forward_n(3);
    d.step_backward_n(1000);
    assert_eq!(d.position(), 0);
}

#[test]
fn jump_forward_lands_on_boundary() {
    let mut d = five_step_debugger();
    d.step_forward(); // fractional position 1, inside frame 0
    assert!(!d.at_frame_boundary());
    d.jump_forward();
    assert!(d.at_frame_boundary());
    assert_eq!(d.position(), 2);
    d.jump_forward();
    assert_eq!(d.position(), 5);
    d.jump_forward(); // no-op at the end
    assert_eq!(d.position(), 5);
    assert!(d.at_frame_boundary());
}

#[test]
fn jump_backward_folds_fraction() {
    let mut d = five_step_debugger();
    d.step_forward_n(4); // inside frame 1
    assert!(!d.at_frame_boundary());
    d.jump_backward();
    assert!(d.at_frame_boundary());
    assert_eq!(d.position(), 2);
    d.jump_backward();
    assert_eq!(d.position(), 0);
    d.jump_backward(); // no-op at the start
    assert_eq!(d.position(), 0);
}

#[test]
fn diff_empty_right_after_start() {
    let mut d = five_step_debugger();
    d.step_forward_n(3);
    d.start_diff();
    let r1 = parse_replica("r1::node1").unwrap();
    let r2 = parse_replica("r2::node2").unwrap();
    assert!(d.diff(&r1).unwrap().is_empty());
    assert!(d.diff(&r2).unwrap().is_empty());
}

#[test]
fn diff_reports_changes_after_advance() {
    let mut d = five_step_debugger();
    d.step_forward_n(2);
    d.start_diff();
    d.step_forward_n(3);
    let r1 = parse_replica("r1::node1").unwrap();
    let diff = d.diff(&r1).unwrap();
    assert!(!diff.is_empty());
    assert_eq!(diff.view, Some((1, 2)));
    assert_eq!(diff.commit, Some((0, 2)));
    let (base_log, cur_log) = diff.log.unwrap();
    assert_eq!(base_log, vec![10]);
    assert_eq!(cur_log, vec![10, 12, 14]);
}

#[test]
fn diff_fails_without_baseline() {
    let mut d = five_step_debugger();
    d.step_forward();
    let r1 = parse_replica("r1::node1").unwrap();
    assert_eq!(d.diff(&r1), Err(DiffError::NoBaseline));
}

#[test]
fn diff_fails_for_unknown_participant() {
    let mut d = five_step_debugger();
    d.step_forward_n(5);
    d.start_diff();
    let zz = parse_replica("zz::node9").unwrap();
    assert_eq!(d.diff(&zz), Err(DiffError::NoSuchParticipant));
}

#[test]
fn revert_to_baseline_invalidates_it() {
    let mut d = five_step_debugger();
    d.step_forward_n(2);
    d.start_diff();
    d.step_forward_n(2);
    d.step_backward_n(2); // back exactly to the baseline position
    let r1 = parse_replica("r1::node1").unwrap();
    assert_eq!(d.diff(&r1), Err(DiffError::NoBaseline));
}

#[test]
fn revert_past_baseline_invalidates_it() {
    let mut d = five_step_debugger();
    d.step_forward_n(3);
    d.start_diff();
    d.step_forward();
    d.jump_backward(); // to 2, before the baseline at 3
    let r2 = parse_replica("r2::node2").unwrap();
    assert_eq!(d.diff(&r2), Err(DiffError::NoBaseline));
}

#[test]
fn forward_navigation_keeps_baseline() {
    let mut d = five_step_debugger();
    d.step_forward_n(2);
    d.start_diff();
    d.step_forward_n(2);
    d.step_backward(); // still past the baseline position
    let r1 = parse_replica("r1::node1").unwrap();
    assert!(d.diff(&r1).is_ok());
}

#[test]
fn replica_names_render_identities() {
    let mut d = five_step_debugger();
    d.step_forward_n(2);
    let names = d.replica_names();
    assert_eq!(names, vec!["r1::node1".to_string(), "r2::node2".to_string()]);
}

#[test]
fn status_reports_cursor_neighborhood() {
    let mut d = five_step_debugger();
    let st = d.get_status();
    assert_eq!(st.frame_count, 2);
    assert_eq!(st.step_count, 5);
    assert!(st.current_op.is_none());
    assert!(st.last_received_envelope.is_none());
    assert_eq!(st.next_op.unwrap().op, 10);
    d.step_forward_n(2);
    let st = d.get_status();
    assert_eq!(st.current_op.unwrap().op, 11);
    assert_eq!(st.next_op.unwrap().op, 12);
    let env = st.last_received_envelope.unwrap();
    assert_eq!(env.to.name, "r2");
    assert_eq!(env.time, 7);
}

#[test]
fn rejected_message_leaves_state_unchanged() {
    // The second message to r1 comes from an older view and is rejected.
    let bytes = trace(
        &[2],
        &[step("r1", "node1", 3, 10, 0), step("r1", "node1", 1, 11, 0)],
    );
    let mut d = Debugger::new();
    d.load_schedule(&bytes).unwrap();
    d.step_forward();
    let r1 = parse_replica("r1::node1").unwrap();
    let before = d.replica_state(&r1).unwrap();
    d.step_forward();
    let after = d.replica_state(&r1).unwrap();
    assert_eq!(before, after);
    assert_eq!(d.step_rejected(0), Some(false));
    assert_eq!(d.step_rejected(1), Some(true));
    assert_eq!(d.step_rejected(2), None);
}

#[test]
fn empty_schedule_is_inert() {
    let bytes = trace(&[], &[]);
    let mut d = Debugger::new();
    d.load_schedule(&bytes).unwrap();
    d.step_forward();
    d.jump_forward();
    assert_eq!(d.position(), 0);
    assert!(d.at_frame_boundary());
    assert!(d.replica_names().is_empty());
}
