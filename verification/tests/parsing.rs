//! Participant-string parsing, command dispatch, and trace loading.

use replay_debugger::command::{run, NavCmd, Outcome};
use replay_debugger::debugger::Debugger;
use replay_debugger::loader::{parse_schedule, LoadError};
use replay_debugger::replica::parse_replica;

fn push_u64(v: &mut Vec<u8>, x: u64) {
    v.extend_from_slice(&x.to_le_bytes());
}

fn push_u128(v: &mut Vec<u8>, x: u128) {
    v.extend_from_slice(&x.to_le_bytes());
}

fn push_str(v: &mut Vec<u8>, s: &str) {
    push_u64(v, s.len() as u64);
    v.extend_from_slice(s.as_bytes());
}

fn push_replica(v: &mut Vec<u8>, name: &str, node: &str) {
    push_u128(v, 0);
    push_str(v, name);
    push_str(v, node);
    push_str(v, "");
    push_str(v, "");
    push_str(v, "");
}

fn push_step(v: &mut Vec<u8>, to_name: &str, to_node: &str, view: u64, op: u64, commit: u64) {
    push_replica(v, "sender", "node0");
    push_replica(v, to_name, to_node);
    push_u64(v, 7);
    push_u64(v, view);
    push_u64(v, op);
    push_u64(v, commit);
}

fn one_step_trace() -> Vec<u8> {
    let mut v = vec![1u8];
    push_u64(&mut v, 1); // one frame
    push_u64(&mut v, 1); // one step
    push_u64(&mut v, 0); // action id
    push_u64(&mut v, 1); // frame end
    push_step(&mut v, "r1", "node1", 1, 10, 0);
    v
}

#[test]
fn parse_replica_accepts_single_separator() {
    let rep = parse_replica("r1::node1").unwrap();
    assert_eq!(rep.name, "r1");
    assert_eq!(rep.node.name, "node1");
    assert_eq!(rep.node.cluster_host, "");
    assert_eq!(rep.tenant, 0);
}

#[test]
fn parse_replica_rejects_no_separator() {
    assert!(parse_replica("r1").is_none());
    assert!(parse_replica("").is_none());
}

#[test]
fn parse_replica_rejects_two_separators() {
    assert!(parse_replica("a::b::c").is_none());
}

#[test]
fn parse_replica_splits_at_first_separator() {
    // A lone extra colon is not a separator of its own.
    let rep = parse_replica("a:::b").unwrap();
    assert_eq!(rep.name, "a");
    assert_eq!(rep.node.name, ":b");
}

#[test]
fn loader_rejects_empty_input() {
    assert_eq!(parse_schedule(&Vec::<u8>::new()), Err(LoadError::ParseError));
}

#[test]
fn loader_rejects_unknown_version() {
    let mut v = one_step_trace();
    v[0] = 2;
    assert_eq!(parse_schedule(&v), Err(LoadError::VersionMismatch));
}

#[test]
fn loader_rejects_truncated_input() {
    let v = one_step_trace();
    let cut = v[..v.len() - 3].to_vec();
    assert_eq!(parse_schedule(&cut), Err(LoadError::ParseError));
}

#[test]
fn loader_rejects_trailing_bytes() {
    let mut v = one_step_trace();
    v.push(0);
    assert_eq!(parse_schedule(&v), Err(LoadError::ParseError));
}

#[test]
fn loader_rejects_uncovered_steps() {
    // The last frame must end exactly at the step count.
    let mut v = vec![1u8];
    push_u64(&mut v, 1);
    push_u64(&mut v, 1);
    push_u64(&mut v, 0);
    push_u64(&mut v, 0); // frame end 0, but one step follows
    push_step(&mut v, "r1", "node1", 1, 10, 0);
    assert_eq!(parse_schedule(&v), Err(LoadError::ParseError));
}

#[test]
fn loader_rejects_unsorted_frame_ends() {
    let mut v = vec![1u8];
    push_u64(&mut v, 2);
    push_u64(&mut v, 1);
    push_u64(&mut v, 0);
    push_u64(&mut v, 1); // frame 0 ends at 1
    push_u64(&mut v, 1);
    push_u64(&mut v, 0); // frame 1 ends at 0: out of order, and not the step count
    push_step(&mut v, "r1", "node1", 1, 10, 0);
    assert_eq!(parse_schedule(&v), Err(LoadError::ParseError));
}

#[test]
fn loader_rejects_non_ascii_name() {
    let mut v = vec![1u8];
    push_u64(&mut v, 1);
    push_u64(&mut v, 1);
    push_u64(&mut v, 0);
    push_u64(&mut v, 1);
    push_replica(&mut v, "sender", "node0");
    // recipient with a non-ASCII byte in its name
    push_u128(&mut v, 0);
    push_u64(&mut v, 2);
    v.extend_from_slice(&[0xC3, 0xA9]);
    for _ in 0..4 {
        push_str(&mut v, "");
    }
    push_u64(&mut v, 7);
    push_u64(&mut v, 1);
    push_u64(&mut v, 10);
    push_u64(&mut v, 0);
    assert_eq!(parse_schedule(&v), Err(LoadError::ParseError));
}

#[test]
fn loader_accepts_well_formed_trace() {
    let v = one_step_trace();
    let sched = parse_schedule(&v).unwrap();
    assert_eq!(sched.frames.len(), 1);
    assert_eq!(sched.steps.len(), 1);
    assert_eq!(sched.steps[0].to.name, "r1");
    assert_eq!(sched.steps[0].msg.op, 10);
}

#[test]
fn load_failure_leaves_debugger_untouched() {
    let mut d = Debugger::new();
    assert_eq!(d.load_schedule(&vec![9u8, 9, 9]), Err(LoadError::VersionMismatch));
    assert_eq!(d.total_steps(), 0);
}

fn loaded() -> Debugger {
    let mut d = Debugger::new();
    d.load_schedule(&one_step_trace()).unwrap();
    d
}

#[test]
fn run_empty_line_is_quiet() {
    let mut d = loaded();
    assert!(matches!(run(&mut d, ""), Outcome::Quiet));
    assert!(matches!(run(&mut d, "   \t "), Outcome::Quiet));
}

#[test]
fn run_unknown_command_gives_help() {
    let mut d = loaded();
    assert!(matches!(run(&mut d, "frobnicate"), Outcome::Help));
}

#[test]
fn run_navigation_moves_cursor() {
    let mut d = loaded();
    assert!(matches!(run(&mut d, "sf"), Outcome::Quiet));
    assert_eq!(d.position(), 1);
    assert!(matches!(run(&mut d, "sb 1"), Outcome::Quiet));
    assert_eq!(d.position(), 0);
    assert!(matches!(run(&mut d, "jf 1"), Outcome::Quiet));
    assert_eq!(d.position(), 1);
    assert!(matches!(run(&mut d, "jump-bwd"), Outcome::Quiet));
    assert_eq!(d.position(), 0);
}

#[test]
fn run_rejects_non_integer_count() {
    let mut d = loaded();
    let out = run(&mut d, "sf abc");
    assert!(matches!(out, Outcome::IntArgRequired(NavCmd::StepFwd)));
    assert_eq!(d.position(), 0);
    let out = run(&mut d, "jb 1x");
    assert!(matches!(out, Outcome::IntArgRequired(NavCmd::JumpBwd)));
}

#[test]
fn run_rejects_huge_count() {
    let mut d = loaded();
    let out = run(&mut d, "sf 99999999999999999999999999");
    assert!(matches!(out, Outcome::IntArgRequired(NavCmd::StepFwd)));
    assert_eq!(d.position(), 0);
}

#[test]
fn run_extra_arguments_give_help() {
    let mut d = loaded();
    assert!(matches!(run(&mut d, "sf 1 2"), Outcome::Help));
    assert_eq!(d.position(), 0);
}

#[test]
fn run_print_replicas_lists_names() {
    let mut d = loaded();
    run(&mut d, "sf");
    match run(&mut d, "p replicas") {
        Outcome::Replicas(names) => {
            assert_eq!(names, vec!["r1::node1".to_string()])
        },
        other => panic!("unexpected outcome: {:?}", other),
    }
}

#[test]
fn run_print_replica_state() {
    let mut d = loaded();
    run(&mut d, "sf");
    match run(&mut d, "print r1::node1") {
        Outcome::ReplicaState(st) => {
            assert_eq!(st.log, vec![10]);
        },
        other => panic!("unexpected outcome: {:?}", other),
    }
    assert!(matches!(run(&mut d, "p zz::node9"), Outcome::NoSuchReplica));
    assert!(matches!(run(&mut d, "p not-a-replica"), Outcome::BadReplicaFormatHelp));
    assert!(matches!(run(&mut d, "p"), Outcome::Help));
}

#[test]
fn run_diff_commands() {
    let mut d = loaded();
    run(&mut d, "sf");
    assert!(matches!(run(&mut d, "rd"), Outcome::Quiet));
    match run(&mut d, "d r1::node1") {
        Outcome::DiffResult(diff) => assert!(diff.is_empty()),
        other => panic!("unexpected outcome: {:?}", other),
    }
    assert!(matches!(run(&mut d, "diff"), Outcome::DiffUsage));
    assert!(matches!(run(&mut d, "d a::b::c"), Outcome::BadReplicaFormat));
}

#[test]
fn run_status_reports() {
    let mut d = loaded();
    match run(&mut d, "s") {
        Outcome::StatusReport(st) => {
            assert_eq!(st.step_count, 1);
            assert_eq!(st.frame_count, 1);
        },
        other => panic!("unexpected outcome: {:?}", other),
    }
}
