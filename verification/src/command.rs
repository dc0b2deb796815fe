//! The command surface: tokenizing an input line, parsing counts, and
//! dispatching one command against the engine.
//!
//! Every command either mutates the engine exactly as the navigation
//! contracts state, or reads it and reports; malformed input changes
//! nothing.

use vstd::prelude::*;
use crate::debugger::{
    diff_model, has_key, invalidated, jump_bwd_target, jump_fwd_target, snapshot, state_of,
    status_ok, wf, BaselineView, Debugger, DebuggerView, DiffError, Status,
};
use crate::protocol::{Diff, ProtocolState};
use crate::replica::{parse_replica, parsed_ident, valid_ident};

verus! {

/// The four navigation commands that take an optional count.
#[derive(Clone, Copy, Debug, PartialEq, Eq, Structural)]
pub enum NavCmd {
    JumpFwd,
    JumpBwd,
    StepFwd,
    StepBwd,
}

/// What one command produced: everything the interactive shell needs
/// to render, with no text formatting decided here.
#[derive(Debug)]
pub enum Outcome {
    /// Nothing to print: an empty line, or a navigation that ran.
    Quiet,
    /// Print the usage help.
    Help,
    /// The navigation command's argument was not an integer.
    IntArgRequired(NavCmd),
    /// The rendered identities of all known participants.
    Replicas(Vec<String>),
    /// One participant's reconstructed state.
    ReplicaState(ProtocolState),
    /// The named participant does not exist.
    NoSuchReplica,
    /// The participant argument is not `<name>::<node-name>`.
    BadReplicaFormat,
    /// As `BadReplicaFormat`, followed by the usage help.
    BadReplicaFormatHelp,
    /// `diff` needs exactly one participant argument.
    DiffUsage,
    /// The structural difference against the baseline.
    DiffResult(Diff),
    /// Why no diff can be given.
    DiffFailed(DiffError),
    /// The status summary.
    StatusReport(Status),
}

/// The cursor after `n` forward steps.
pub open spec fn fwd_cursor(d: DebuggerView, n: int) -> int {
    if d.cursor + n <= d.sched.steps.len() {
        d.cursor + n
    } else {
        d.sched.steps.len() as int
    }
}

/// The cursor after `n` backward steps.
pub open spec fn bwd_cursor(d: DebuggerView, n: int) -> int {
    if d.cursor >= n {
        d.cursor - n
    } else {
        0
    }
}

/// The baselines surviving `n` backward steps.
pub open spec fn bwd_baselines(d: DebuggerView, n: int) -> Seq<BaselineView> {
    if n == 0 || d.cursor == 0 {
        d.baselines
    } else {
        invalidated(d.baselines, bwd_cursor(d, n))
    }
}

/// Whether the first word of `ws` is `a` or `b`.
pub open spec fn is_cmd(ws: Seq<Seq<char>>, a: Seq<char>, b: Seq<char>) -> bool {
    ws.len() > 0 && (ws[0] == a || ws[0] == b)
}

/// The count a navigation command line carries: 1 without an argument.
pub open spec fn nav_count(ws: Seq<Seq<char>>) -> Option<int> {
    if ws.len() == 1 {
        Some(1)
    } else {
        count_of(ws[1])
    }
}

/// What a `step-fwd` line does to the engine and reports.
pub open spec fn step_fwd_ok(
    d0: DebuggerView,
    d1: DebuggerView,
    ws: Seq<Seq<char>>,
    out: Outcome,
) -> bool {
    if ws.len() > 2 {
        d1 == d0 && out is Help
    } else {
        match nav_count(ws) {
            Some(n) => d1.cursor == fwd_cursor(d0, n) && d1.baselines == d0.baselines
                && out is Quiet,
            None => d1 == d0 && (out matches Outcome::IntArgRequired(NavCmd::StepFwd)),
        }
    }
}

/// What a `step-bwd` line does to the engine and reports.
pub open spec fn step_bwd_ok(
    d0: DebuggerView,
    d1: DebuggerView,
    ws: Seq<Seq<char>>,
    out: Outcome,
) -> bool {
    if ws.len() > 2 {
        d1 == d0 && out is Help
    } else {
        match nav_count(ws) {
            Some(n) => d1.cursor == bwd_cursor(d0, n) && d1.baselines == bwd_baselines(d0, n)
                && out is Quiet,
            None => d1 == d0 && (out matches Outcome::IntArgRequired(NavCmd::StepBwd)),
        }
    }
}

/// What a `jump-fwd` line does to the engine and reports.
pub open spec fn jump_fwd_ok(
    d0: DebuggerView,
    d1: DebuggerView,
    ws: Seq<Seq<char>>,
    out: Outcome,
) -> bool {
    if ws.len() > 2 {
        d1 == d0 && out is Help
    } else {
        match nav_count(ws) {
            Some(n) => d1.cursor == jump_fwd_target(d0.sched, d0.cursor, n as nat)
                && d1.baselines == d0.baselines && out is Quiet,
            None => d1 == d0 && (out matches Outcome::IntArgRequired(NavCmd::JumpFwd)),
        }
    }
}

/// What a `jump-bwd` line does to the engine and reports.
pub open spec fn jump_bwd_ok(
    d0: DebuggerView,
    d1: DebuggerView,
    ws: Seq<Seq<char>>,
    out: Outcome,
) -> bool {
    if ws.len() > 2 {
        d1 == d0 && out is Help
    } else {
        match nav_count(ws) {
            Some(n) => {
                &&& d1.cursor == jump_bwd_target(d0.sched, d0.cursor, n as nat)
                &&& (n == 0 || d0.cursor == 0) ==> d1.baselines == d0.baselines
                &&& (n > 0 && d0.cursor > 0 && d1.cursor < d0.cursor) ==> d1.baselines
                    == invalidated(d0.baselines, d1.cursor)
                &&& out is Quiet
            },
            None => d1 == d0 && (out matches Outcome::IntArgRequired(NavCmd::JumpBwd)),
        }
    }
}

/// A faithful rendering of the known participants: one `name::node`
/// string per store entry, in store order.
pub open spec fn replicas_listing_ok(d: DebuggerView, names: Seq<String>) -> bool {
    &&& names.len() == d.entries.len()
    &&& forall|i: int|
        0 <= i < names.len() ==> #[trigger] names[i]@ == d.entries[i].replica.name + seq![
            ':',
            ':',
        ] + d.entries[i].replica.node.name
}

/// What `print`'s argument produces: the participant listing, one
/// participant's state, or the matching complaint.
pub open spec fn print_arg_outcome_ok(d: DebuggerView, w: Seq<char>, out: Outcome) -> bool {
    if w == "replicas"@ {
        out matches Outcome::Replicas(names) && replicas_listing_ok(d, names@)
    } else if valid_ident(w) {
        if has_key(d.entries, parsed_ident(w)) {
            out matches Outcome::ReplicaState(st) && st@ == state_of(d.entries, parsed_ident(w))
        } else {
            out is NoSuchReplica
        }
    } else {
        out is BadReplicaFormatHelp
    }
}

/// What a `print` line reports.
pub open spec fn print_outcome_ok(d: DebuggerView, ws: Seq<Seq<char>>, out: Outcome) -> bool {
    if ws.len() == 2 {
        print_arg_outcome_ok(d, ws[1], out)
    } else {
        out is Help
    }
}

/// What a `diff` line reports.
pub open spec fn diff_outcome_ok(d: DebuggerView, ws: Seq<Seq<char>>, out: Outcome) -> bool {
    if ws.len() != 2 {
        out is DiffUsage
    } else if valid_ident(ws[1]) {
        match diff_model(d, parsed_ident(ws[1])) {
            Ok(v) => out matches Outcome::DiffResult(df) && df@ == v,
            Err(e) => out matches Outcome::DiffFailed(e2) && e2 == e,
        }
    } else {
        out is BadReplicaFormat
    }
}

/// Whether `w` is one of the recognized command words.
pub open spec fn known_cmd(w: Seq<char>) -> bool {
    ||| w == "print"@
    ||| w == "p"@
    ||| w == "jump-fwd"@
    ||| w == "jf"@
    ||| w == "jump-bwd"@
    ||| w == "jb"@
    ||| w == "step-fwd"@
    ||| w == "sf"@
    ||| w == "step-bwd"@
    ||| w == "sb"@
    ||| w == "reset-diff"@
    ||| w == "rd"@
    ||| w == "diff"@
    ||| w == "d"@
    ||| w == "status"@
    ||| w == "s"@
}

/// Whitespace for command splitting.
pub open spec fn is_ws(c: char) -> bool {
    c == ' ' || c == '\t' || c == '\n' || c == '\r'
}

/// The length of the word at the front of `s`: the count of leading
/// non-whitespace characters.
pub open spec fn word_len(s: Seq<char>) -> int
    decreases s.len(),
{
    if s.len() == 0 || is_ws(s[0]) {
        0
    } else {
        1 + word_len(s.drop_first())
    }
}

/// The front word's length is at most the whole length.
pub proof fn lemma_word_len_bounds(s: Seq<char>)
    ensures
        0 <= word_len(s) <= s.len(),
    decreases s.len(),
{
    if s.len() > 0 && !is_ws(s[0]) {
        lemma_word_len_bounds(s.drop_first());
    }
}

/// The words of `s`, in order: maximal runs of non-whitespace.
pub open spec fn tokens_of(s: Seq<char>) -> Seq<Seq<char>>
    decreases s.len(),
    via tokens_of_dec
{
    if s.len() == 0 {
        Seq::empty()
    } else if is_ws(s[0]) {
        tokens_of(s.drop_first())
    } else {
        seq![s.take(word_len(s))] + tokens_of(s.skip(word_len(s)))
    }
}

#[via_fn]
proof fn tokens_of_dec(s: Seq<char>) {
    if s.len() > 0 && !is_ws(s[0]) {
        lemma_word_len_bounds(s);
        lemma_word_len_bounds(s.drop_first());
    }
}

/// A run of non-whitespace of length `l`, ended by the end of the
/// string or a whitespace character, pins the front word's length.
pub proof fn lemma_word_len_of_run(s: Seq<char>, l: int)
    requires
        0 <= l <= s.len(),
        forall|k: int| 0 <= k < l ==> !is_ws(#[trigger] s[k]),
        l == s.len() || is_ws(s[l]),
    ensures
        word_len(s) == l,
    decreases l,
{
    if l == 0 {
    } else {
        let t = s.drop_first();
        assert(!is_ws(s[0]));
        assert forall|k: int| 0 <= k < l - 1 implies !is_ws(#[trigger] t[k]) by {
            assert(t[k] == s[k + 1]);
        }
        assert(l - 1 == t.len() || is_ws(t[l - 1]));
        lemma_word_len_of_run(t, l - 1);
    }
}

/// Whitespace test, exactly as `is_ws` states it.
fn is_ws_exec(c: char) -> (r: bool)
    ensures
        r == is_ws(c),
{
    c == ' ' || c == '\t' || c == '\n' || c == '\r'
}

/// The index of the first whitespace character at or after `start`, or
/// `n` if none is.
fn scan_word_end(s: &str, start: usize, n: usize) -> (j: usize)
    requires
        n == s@.len(),
        start <= n,
    ensures
        start <= j <= n,
        forall|k: int| start <= k < j ==> !is_ws(#[trigger] s@[k]),
        (j as int) < n ==> is_ws(s@[j as int]),
{
    let mut j: usize = start;
    while j < n
        invariant
            n == s@.len(),
            start <= j <= n,
            forall|k: int| start <= k < j ==> !is_ws(#[trigger] s@[k]),
        decreases n - j,
    {
        if is_ws_exec(s.get_char(j)) {
            return j;
        }
        j = j + 1;
    }
    n
}

/// Splits a line into its whitespace-separated words, exactly as
/// `tokens_of` states them.
pub fn split_words(s: &str) -> (r: Vec<String>)
    ensures
        r@.map_values(|w: String| w@) == tokens_of(s@),
{
    let n = s.unicode_len();
    let mut out: Vec<String> = Vec::new();
    let mut i: usize = 0;
    proof {
        assert(s@.skip(0) =~= s@);
        assert(out@.map_values(|w: String| w@) =~= Seq::<Seq<char>>::empty());
    }
    while i < n
        invariant
            n == s@.len(),
            i <= n,
            tokens_of(s@) == out@.map_values(|w: String| w@) + tokens_of(s@.skip(i as int)),
        decreases n - i,
    {
        let ghost rest = s@.skip(i as int);
        proof {
            assert(rest.len() == n - i);
            assert(rest[0] == s@[i as int]);
            assert(rest.drop_first() =~= s@.skip(i + 1));
        }
        if is_ws_exec(s.get_char(i)) {
            proof {
                assert(tokens_of(rest) == tokens_of(s@.skip(i + 1)));
            }
            i = i + 1;
        } else {
            let j = scan_word_end(s, i + 1, n);
            let ghost wl = j - i;
            proof {
                assert forall|k: int| 0 <= k < wl implies !is_ws(#[trigger] rest[k]) by {
                    assert(rest[k] == s@[i + k]);
                }
                assert(wl == rest.len() || is_ws(rest[wl as int]));
                lemma_word_len_of_run(rest, wl as int);
                assert(rest.take(wl as int) =~= s@.subrange(i as int, j as int));
                assert(rest.skip(wl as int) =~= s@.skip(j as int));
                assert(tokens_of(rest) == seq![rest.take(wl as int)] + tokens_of(
                    s@.skip(j as int),
                ));
            }
            let w = s.substring_char(i, j).to_owned();
            let ghost ov = out@.map_values(|x: String| x@);
            out.push(w);
            proof {
                assert(out@.map_values(|x: String| x@) =~= ov.push(w@));
                assert(ov + (seq![w@] + tokens_of(s@.skip(j as int))) =~= ov.push(w@)
                    + tokens_of(s@.skip(j as int)));
            }
            i = j;
        }
    }
    proof {
        assert(s@.skip(n as int) =~= Seq::<char>::empty());
        assert(tokens_of(s@) =~= out@.map_values(|w: String| w@));
    }
    out
}

/// Decides equality of two strings, exactly as their views compare.
pub fn str_eq(a: &str, b: &str) -> (r: bool)
    ensures
        r == (a@ == b@),
{
    let na = a.unicode_len();
    let nb = b.unicode_len();
    if na != nb {
        proof {
            assert(a@ != b@);
        }
        return false;
    }
    let mut i: usize = 0;
    while i < na
        invariant
            na == a@.len(),
            na == b@.len(),
            i <= na,
            forall|k: int| 0 <= k < i ==> a@[k] == b@[k],
        decreases na - i,
    {
        if a.get_char(i) != b.get_char(i) {
            proof {
                assert(a@[i as int] != b@[i as int]);
            }
            return false;
        }
        i = i + 1;
    }
    proof {
        assert(a@ =~= b@);
    }
    true
}

/// Whether `c` is a decimal digit.
pub open spec fn is_digit(c: char) -> bool {
    48 <= (c as int) <= 57
}

/// Whether `s` is a nonempty run of decimal digits.
pub open spec fn all_digits(s: Seq<char>) -> bool {
    s.len() > 0 && forall|i: int| 0 <= i < s.len() ==> is_digit(#[trigger] s[i])
}

/// The numeric value of a digit string.
pub open spec fn digits_val(s: Seq<char>) -> int
    decreases s.len(),
{
    if s.len() == 0 {
        0
    } else {
        digits_val(s.drop_last()) * 10 + (s.last() as int - 48)
    }
}

/// A digit string's value never shrinks as it is extended.
pub proof fn lemma_digits_val_extend(s: Seq<char>, a: int, b: int)
    requires
        0 <= a <= b <= s.len(),
        forall|k: int| 0 <= k < s.len() ==> is_digit(#[trigger] s[k]),
    ensures
        digits_val(s.take(a)) <= digits_val(s.take(b)),
        digits_val(s.take(a)) >= 0,
    decreases b - a,
{
    if a == b {
        lemma_digits_val_nonneg(s, a);
    } else {
        lemma_digits_val_extend(s, a, b - 1);
        let t = s.take(b);
        assert(t.drop_last() =~= s.take(b - 1));
        assert(t.last() == s[b - 1]);
        lemma_digits_val_nonneg(s, b - 1);
    }
}

/// A digit string's value is nonnegative.
pub proof fn lemma_digits_val_nonneg(s: Seq<char>, a: int)
    requires
        0 <= a <= s.len(),
        forall|k: int| 0 <= k < s.len() ==> is_digit(#[trigger] s[k]),
    ensures
        digits_val(s.take(a)) >= 0,
    decreases a,
{
    if a > 0 {
        lemma_digits_val_nonneg(s, a - 1);
        let t = s.take(a);
        assert(t.drop_last() =~= s.take(a - 1));
        assert(t.last() == s[a - 1]);
    }
}

/// The count argument a navigation command accepts: a nonempty digit
/// string whose value fits the machine.
pub open spec fn count_of(w: Seq<char>) -> Option<int> {
    if all_digits(w) && digits_val(w) <= usize::MAX as int {
        Some(digits_val(w))
    } else {
        None
    }
}

/// Handles a `jump-fwd` line against the engine.
pub fn jump_forward(debugger: &mut Debugger, words: &Vec<String>) -> (out: Outcome)
    requires
        wf(old(debugger)@),
        words@.len() > 0,
    ensures
        wf(final(debugger)@),
        final(debugger)@.sched == old(debugger)@.sched,
        jump_fwd_ok(old(debugger)@, final(debugger)@, words@.map_values(|w: String| w@), out),
{
    let ghost ws = words@.map_values(|w: String| w@);
    if words.len() > 2 {
        return Outcome::Help;
    }
    if words.len() == 1 {
        debugger.jump_forward_n(1);
        return Outcome::Quiet;
    }
    proof {
        assert(ws[1] == words@[1]@);
    }
    match parse_count(words[1].as_str()) {
        Some(n) => {
            debugger.jump_forward_n(n);
            Outcome::Quiet
        },
        None => Outcome::IntArgRequired(NavCmd::JumpFwd),
    }
}

/// Handles a `jump-bwd` line against the engine.
pub fn jump_backward(debugger: &mut Debugger, words: &Vec<String>) -> (out: Outcome)
    requires
        wf(old(debugger)@),
        words@.len() > 0,
    ensures
        wf(final(debugger)@),
        final(debugger)@.sched == old(debugger)@.sched,
        jump_bwd_ok(old(debugger)@, final(debugger)@, words@.map_values(|w: String| w@), out),
{
    let ghost ws = words@.map_values(|w: String| w@);
    if words.len() > 2 {
        return Outcome::Help;
    }
    if words.len() == 1 {
        debugger.jump_backward_n(1);
        return Outcome::Quiet;
    }
    proof {
        assert(ws[1] == words@[1]@);
    }
    match parse_count(words[1].as_str()) {
        Some(n) => {
            debugger.jump_backward_n(n);
            Outcome::Quiet
        },
        None => Outcome::IntArgRequired(NavCmd::JumpBwd),
    }
}

/// Handles a `step-fwd` line against the engine.
pub fn step_forward(debugger: &mut Debugger, words: &Vec<String>) -> (out: Outcome)
    requires
        wf(old(debugger)@),
        words@.len() > 0,
    ensures
        wf(final(debugger)@),
        final(debugger)@.sched == old(debugger)@.sched,
        step_fwd_ok(old(debugger)@, final(debugger)@, words@.map_values(|w: String| w@), out),
{
    let ghost ws = words@.map_values(|w: String| w@);
    if words.len() > 2 {
        return Outcome::Help;
    }
    if words.len() == 1 {
        debugger.step_forward_n(1);
        return Outcome::Quiet;
    }
    proof {
        assert(ws[1] == words@[1]@);
    }
    match parse_count(words[1].as_str()) {
        Some(n) => {
            debugger.step_forward_n(n);
            Outcome::Quiet
        },
        None => Outcome::IntArgRequired(NavCmd::StepFwd),
    }
}

/// Handles a `step-bwd` line against the engine.
pub fn step_backward(debugger: &mut Debugger, words: &Vec<String>) -> (out: Outcome)
    requires
        wf(old(debugger)@),
        words@.len() > 0,
    ensures
        wf(final(debugger)@),
        final(debugger)@.sched == old(debugger)@.sched,
        step_bwd_ok(old(debugger)@, final(debugger)@, words@.map_values(|w: String| w@), out),
{
    let ghost ws = words@.map_values(|w: String| w@);
    if words.len() > 2 {
        return Outcome::Help;
    }
    if words.len() == 1 {
        debugger.step_backward_n(1);
        return Outcome::Quiet;
    }
    proof {
        assert(ws[1] == words@[1]@);
    }
    match parse_count(words[1].as_str()) {
        Some(n) => {
            debugger.step_backward_n(n);
            Outcome::Quiet
        },
        None => Outcome::IntArgRequired(NavCmd::StepBwd),
    }
}

/// Handles a `print` line: exactly one argument, handed to `print2`.
pub fn print(debugger: &Debugger, words: &Vec<String>) -> (out: Outcome)
    ensures
        print_outcome_ok(debugger@, words@.map_values(|w: String| w@), out),
{
    let ghost ws = words@.map_values(|w: String| w@);
    if words.len() == 2 {
        proof {
            assert(ws[1] == words@[1]@);
        }
        print2(debugger, words[1].as_str())
    } else {
        Outcome::Help
    }
}

/// Handles `print`'s argument: the participant listing, or one
/// participant's state.
pub fn print2(debugger: &Debugger, arg: &str) -> (out: Outcome)
    ensures
        print_arg_outcome_ok(debugger@, arg@, out),
{
    if str_eq(arg, "replicas") {
        Outcome::Replicas(debugger.replica_names())
    } else {
        match parse_replica(arg) {
            Some(replica) => {
                match debugger.replica_state(&replica) {
                    None => Outcome::NoSuchReplica,
                    Some(st) => Outcome::ReplicaState(st),
                }
            },
            None => Outcome::BadReplicaFormatHelp,
        }
    }
}

/// Handles a `diff` line: one participant argument, diffed against its
/// baseline.
pub fn show_diff(debugger: &Debugger, words: &Vec<String>) -> (out: Outcome)
    requires
        wf(debugger@),
    ensures
        diff_outcome_ok(debugger@, words@.map_values(|w: String| w@), out),
{
    let ghost ws = words@.map_values(|w: String| w@);
    if words.len() != 2 {
        return Outcome::DiffUsage;
    }
    proof {
        assert(ws[1] == words@[1]@);
    }
    match parse_replica(words[1].as_str()) {
        Some(replica) => {
            match debugger.diff(&replica) {
                Ok(df) => Outcome::DiffResult(df),
                Err(e) => Outcome::DiffFailed(e),
            }
        },
        None => Outcome::BadReplicaFormat,
    }
}

/// Handles a `status` line.
pub fn show_status(debugger: &Debugger) -> (out: Outcome)
    requires
        wf(debugger@),
    ensures
        out matches Outcome::StatusReport(st) && status_ok(debugger@, st),
{
    Outcome::StatusReport(debugger.get_status())
}

/// Runs one command line against the engine: splits it into words,
/// dispatches on the command word, and reports what to render.  An
/// empty line does nothing; an unrecognized command asks for help; no
/// malformed input mutates the engine.
pub fn run(debugger: &mut Debugger, command: &str) -> (out: Outcome)
    requires
        wf(old(debugger)@),
    ensures
        wf(final(debugger)@),
        final(debugger)@.sched == old(debugger)@.sched,
        ({
            let ws = tokens_of(command@);
            &&& ws.len() == 0 ==> final(debugger)@ == old(debugger)@ && out is Quiet
            &&& is_cmd(ws, "print"@, "p"@) ==> final(debugger)@ == old(debugger)@
                && print_outcome_ok(old(debugger)@, ws, out)
            &&& is_cmd(ws, "jump-fwd"@, "jf"@) ==> jump_fwd_ok(
                old(debugger)@,
                final(debugger)@,
                ws,
                out,
            )
            &&& is_cmd(ws, "jump-bwd"@, "jb"@) ==> jump_bwd_ok(
                old(debugger)@,
                final(debugger)@,
                ws,
                out,
            )
            &&& is_cmd(ws, "step-fwd"@, "sf"@) ==> step_fwd_ok(
                old(debugger)@,
                final(debugger)@,
                ws,
                out,
            )
            &&& is_cmd(ws, "step-bwd"@, "sb"@) ==> step_bwd_ok(
                old(debugger)@,
                final(debugger)@,
                ws,
                out,
            )
            &&& is_cmd(ws, "reset-diff"@, "rd"@) ==> {
                &&& final(debugger)@.cursor == old(debugger)@.cursor
                &&& final(debugger)@.entries == old(debugger)@.entries
                &&& final(debugger)@.history == old(debugger)@.history
                &&& final(debugger)@.baselines == snapshot(
                    old(debugger)@.entries,
                    old(debugger)@.cursor,
                )
                &&& out is Quiet
            }
            &&& is_cmd(ws, "diff"@, "d"@) ==> final(debugger)@ == old(debugger)@
                && diff_outcome_ok(old(debugger)@, ws, out)
            &&& is_cmd(ws, "status"@, "s"@) ==> final(debugger)@ == old(debugger)@ && (
            out matches Outcome::StatusReport(st) && status_ok(old(debugger)@, st))
            &&& ws.len() > 0 && !known_cmd(ws[0]) ==> final(debugger)@ == old(debugger)@
                && out is Help
        }),
{
    proof {
        reveal_strlit("print");
        reveal_strlit("p");
        reveal_strlit("jump-fwd");
        reveal_strlit("jf");
        reveal_strlit("jump-bwd");
        reveal_strlit("jb");
        reveal_strlit("step-fwd");
        reveal_strlit("sf");
        reveal_strlit("step-bwd");
        reveal_strlit("sb");
        reveal_strlit("reset-diff");
        reveal_strlit("rd");
        reveal_strlit("diff");
        reveal_strlit("d");
        reveal_strlit("status");
        reveal_strlit("s");
        assert("print"@.len() == 5 && "p"@.len() == 1 && "jump-fwd"@.len() == 8 && "jf"@.len()
            == 2 && "jump-bwd"@.len() == 8 && "jb"@.len() == 2 && "step-fwd"@.len() == 8
            && "sf"@.len() == 2 && "step-bwd"@.len() == 8 && "sb"@.len() == 2
            && "reset-diff"@.len() == 10 && "rd"@.len() == 2 && "diff"@.len() == 4 && "d"@.len()
            == 1 && "status"@.len() == 6 && "s"@.len() == 1);
        assert("p"@[0] == 'p' && "d"@[0] == 'd' && "s"@[0] == 's');
        assert("jf"@[0] == 'j' && "jf"@[1] == 'f');
        assert("jb"@[0] == 'j' && "jb"@[1] == 'b');
        assert("sf"@[0] == 's' && "sf"@[1] == 'f');
        assert("sb"@[0] == 's' && "sb"@[1] == 'b');
        assert("rd"@[0] == 'r' && "rd"@[1] == 'd');
        assert("jump-fwd"@[0] == 'j' && "jump-fwd"@[5] == 'f');
        assert("jump-bwd"@[0] == 'j' && "jump-bwd"@[5] == 'b');
        assert("step-fwd"@[0] == 's' && "step-fwd"@[5] == 'f');
        assert("step-bwd"@[0] == 's' && "step-bwd"@[5] == 'b');
    }
    let words = split_words(command);
    let ghost ws = tokens_of(command@);
    proof {
        assert(ws == words@.map_values(|w: String| w@));
        assert(ws.len() == words@.len());
    }
    if words.len() == 0 {
        return Outcome::Quiet;
    }
    proof {
        assert(ws[0] == words@[0]@);
    }
    if str_eq(words[0].as_str(), "print") || str_eq(words[0].as_str(), "p") {
        print(debugger, &words)
    } else if str_eq(words[0].as_str(), "jump-fwd") || str_eq(words[0].as_str(), "jf") {
        jump_forward(debugger, &words)
    } else if str_eq(words[0].as_str(), "jump-bwd") || str_eq(words[0].as_str(), "jb") {
        jump_backward(debugger, &words)
    } else if str_eq(words[0].as_str(), "step-fwd") || str_eq(words[0].as_str(), "sf") {
        step_forward(debugger, &words)
    } else if str_eq(words[0].as_str(), "step-bwd") || str_eq(words[0].as_str(), "sb") {
        step_backward(debugger, &words)
    } else if str_eq(words[0].as_str(), "reset-diff") || str_eq(words[0].as_str(), "rd") {
        debugger.start_diff();
        Outcome::Quiet
    } else if str_eq(words[0].as_str(), "diff") || str_eq(words[0].as_str(), "d") {
        show_diff(debugger, &words)
    } else if str_eq(words[0].as_str(), "status") || str_eq(words[0].as_str(), "s") {
        show_status(debugger)
    } else {
        Outcome::Help
    }
}

/// Parses a nonnegative decimal count, exactly as `count_of` states it.
pub fn parse_count(s: &str) -> (r: Option<usize>)
    ensures
        match r {
            Some(v) => count_of(s@) == Some(v as int),
            None => count_of(s@) is None,
        },
{
    let n = s.unicode_len();
    if n == 0 {
        return None;
    }
    let mut acc: u128 = 0;
    let mut i: usize = 0;
    proof {
        assert(s@.take(0) =~= Seq::<char>::empty());
    }
    while i < n
        invariant
            n == s@.len(),
            0 < n,
            i <= n,
            forall|k: int| 0 <= k < i ==> is_digit(#[trigger] s@[k]),
            acc <= usize::MAX as u128,
            acc as int == digits_val(s@.take(i as int)),
        decreases n - i,
    {
        let c = s.get_char(i);
        let d = c as u32;
        if d < 48 || d > 57 {
            proof {
                assert(!is_digit(s@[i as int]));
            }
            return None;
        }
        let nv: u128 = acc * 10 + ((d - 48) as u128);
        proof {
            let t = s@.take(i + 1);
            assert(t.drop_last() =~= s@.take(i as int));
            assert(t.last() == s@[i as int]);
            assert(nv as int == digits_val(s@.take(i + 1)));
        }
        if nv > (usize::MAX as u128) {
            proof {
                if all_digits(s@) {
                    lemma_digits_val_extend(s@, i + 1, n as int);
                    assert(s@.take(n as int) =~= s@);
                }
            }
            return None;
        }
        acc = nv;
        i = i + 1;
    }
    proof {
        assert(s@.take(n as int) =~= s@);
        assert(all_digits(s@));
    }
    Some(acc as usize)
}

} // verus!
