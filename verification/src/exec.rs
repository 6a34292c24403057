//! Command execution outcomes and scheduling: what a finished, failed or
//! killed command yields, the drift-corrected deadline of the next pass,
//! and the whitespace normalization of command strings.

use vstd::prelude::*;

use crate::text::{push_char, spec_i64_string, spec_nat_string, u64_to_string};

verus! {

/// What running one command produced, reported as plain facts by the
/// platform layer that spawned and reaped the process.
#[derive(Debug)]
pub enum CommandOutcome {
    /// The process finished within its allotted time.
    Finished {
        /// Whether it exited successfully.
        success: bool,
        /// Its exit code, where the platform reported one.
        exit_code: Option<i32>,
        /// Its standard output, decoded lossily.
        stdout: String,
        /// Its standard error, decoded lossily.
        stderr: String,
    },
    /// It exceeded its allotted time and was killed and reaped.
    TimedOut,
    /// It could not be started.
    SpawnFailed {
        /// The platform's words for why.
        message: String,
    },
}

/// Why one command's output could not be shown; scoped to that command
/// alone and rendered in place of its output.
#[derive(Debug)]
pub enum CommandError {
    /// The command could not be started.
    CommandSpawnError {
        /// The platform's words for why.
        message: String,
    },
    /// The command exited nonzero.
    CommandFailed {
        /// Its exit code, where the platform reported one.
        exit_code: Option<i32>,
        /// Its trimmed standard error text, possibly empty.
        stderr: String,
    },
    /// The command was killed after exceeding its allotted time.
    CommandTimedOut,
}

/// ASCII whitespace.
pub open spec fn is_space(c: char) -> bool {
    c == ' ' || c == '\t' || c == '\n' || c == '\r' || c == '\x0b' || c == '\x0c'
}

/// `s` with leading whitespace removed.
pub open spec fn spec_trim_start(s: Seq<char>) -> Seq<char>
    decreases s.len(),
{
    if s.len() > 0 && is_space(s[0]) {
        spec_trim_start(s.skip(1))
    } else {
        s
    }
}

/// `s` with trailing whitespace removed.
pub open spec fn spec_trim_end(s: Seq<char>) -> Seq<char>
    decreases s.len(),
{
    if s.len() > 0 && is_space(s.last()) {
        spec_trim_end(s.drop_last())
    } else {
        s
    }
}

/// `s` with whitespace removed from both ends.
pub open spec fn spec_trim(s: Seq<char>) -> Seq<char> {
    spec_trim_end(spec_trim_start(s))
}

/// Whether `c` is ASCII whitespace.
fn space(c: char) -> (b: bool)
    ensures
        b == is_space(c),
{
    c == ' ' || c == '\t' || c == '\n' || c == '\r' || c == '\x0b' || c == '\x0c'
}

/// `s` with whitespace removed from both ends.
pub fn trim_str(s: &str) -> (r: String)
    ensures
        r@ == spec_trim(s@),
{
    let n = s.unicode_len();
    let mut lo: usize = 0;
    proof {
        assert(s@.subrange(0, n as int) =~= s@);
    }
    while lo < n && space(s.get_char(lo))
        invariant
            lo <= n,
            n == s@.len(),
            spec_trim_start(s@) == spec_trim_start(s@.subrange(lo as int, n as int)),
        decreases n - lo,
    {
        proof {
            assert(s@.subrange(lo as int, n as int).skip(1) =~= s@.subrange(lo + 1, n as int));
        }
        lo = lo + 1;
    }
    proof {
        assert(spec_trim_start(s@) == s@.subrange(lo as int, n as int));
    }
    let mut hi: usize = n;
    while hi > lo && space(s.get_char(hi - 1))
        invariant
            lo <= hi <= n,
            n == s@.len(),
            spec_trim_start(s@) == s@.subrange(lo as int, n as int),
            spec_trim_end(s@.subrange(lo as int, n as int)) == spec_trim_end(
                s@.subrange(lo as int, hi as int),
            ),
        decreases hi,
    {
        proof {
            assert(s@.subrange(lo as int, hi as int).last() == s@[hi - 1]);
            assert(s@.subrange(lo as int, hi as int).drop_last() =~= s@.subrange(
                lo as int,
                hi - 1,
            ));
        }
        hi = hi - 1;
    }
    proof {
        assert(spec_trim(s@) == s@.subrange(lo as int, hi as int));
    }
    let piece = s.substring_char(lo, hi);
    piece.to_owned()
}

/// The whitespace-normalized text of `s` from position `i` on: words kept
/// in order, each pair separated by a single space, nothing at the ends.
/// `started` tells whether a word was already emitted before `i`.
pub open spec fn spec_normalize_from(s: Seq<char>, i: int, started: bool) -> Seq<char>
    decreases s.len() - i,
{
    if !(0 <= i < s.len()) {
        Seq::empty()
    } else if is_space(s[i]) {
        spec_normalize_from(s, i + 1, started)
    } else {
        let sep: Seq<char> = if started && (i == 0 || is_space(s[i - 1])) {
            seq![' ']
        } else {
            Seq::empty()
        };
        sep + seq![s[i]] + spec_normalize_from(s, i + 1, true)
    }
}

/// The whitespace-normalized text of a command: its words joined by single
/// spaces.
pub open spec fn spec_normalize(s: Seq<char>) -> Seq<char> {
    spec_normalize_from(s, 0, false)
}

/// Normalizes a command string: splits it on whitespace and joins the
/// words with single spaces.
pub fn normalize_cmd(s: &str) -> (r: String)
    ensures
        r@ == spec_normalize(s@),
{
    let n = s.unicode_len();
    let mut out = String::new();
    let mut started = false;
    let mut prev_space = true;
    let mut i: usize = 0;
    proof {
        assert(out@ + spec_normalize_from(s@, 0, false) =~= spec_normalize_from(s@, 0, false));
    }
    while i < n
        invariant
            i <= n,
            n == s@.len(),
            prev_space == (i == 0 || is_space(s@[i - 1])),
            spec_normalize(s@) == out@ + spec_normalize_from(s@, i as int, started),
        decreases n - i,
    {
        let c = s.get_char(i);
        let ghost prev = out@;
        if space(c) {
            prev_space = true;
        } else {
            if started && prev_space {
                push_char(&mut out, ' ');
            }
            push_char(&mut out, c);
            proof {
                let sep: Seq<char> = if started && (i == 0 || is_space(s@[i - 1])) {
                    seq![' ']
                } else {
                    Seq::empty()
                };
                assert(out@ =~= prev + sep + seq![c]);
            }
            started = true;
            prev_space = false;
        }
        i = i + 1;
    }
    out
}

/// Normalizes each command of a list.
pub fn normalize_cmds(cmds: &Vec<String>) -> (r: Vec<String>)
    ensures
        r@.map_values(|c: String| c@) == cmds@.map_values(|c: String| spec_normalize(c@)),
{
    let n = cmds.len();
    let mut r: Vec<String> = Vec::new();
    let mut k: usize = 0;
    while k < n
        invariant
            k <= n,
            n == cmds@.len(),
            r@.len() == k,
            forall|j: int| 0 <= j < k ==> (#[trigger] r@[j])@ == spec_normalize(cmds@[j]@),
        decreases n - k,
    {
        r.push(normalize_cmd(cmds[k].as_str()));
        k = k + 1;
    }
    proof {
        assert(r@.map_values(|c: String| c@) =~= cmds@.map_values(|c: String| spec_normalize(c@)));
    }
    r
}

/// The tail of a joined text from element `k` on: a separator before each
/// remaining element.
pub open spec fn spec_join_from(xs: Seq<Seq<char>>, sep: Seq<char>, k: int) -> Seq<char>
    decreases xs.len() - k,
{
    if !(0 <= k < xs.len()) {
        Seq::empty()
    } else {
        sep + xs[k] + spec_join_from(xs, sep, k + 1)
    }
}

/// The texts of `xs` joined by `sep`.
pub open spec fn spec_join(xs: Seq<Seq<char>>, sep: Seq<char>) -> Seq<char> {
    if xs.len() == 0 {
        Seq::empty()
    } else {
        xs[0] + spec_join_from(xs, sep, 1)
    }
}

/// Joins command strings with the given separator text.
pub fn join_cmds(cmds: &Vec<String>, sep: &str) -> (r: String)
    ensures
        r@ == spec_join(cmds@.map_values(|c: String| c@), sep@),
{
    let ghost xs = cmds@.map_values(|c: String| c@);
    let n = cmds.len();
    let mut r = String::new();
    let mut k: usize = 0;
    while k < n
        invariant
            k <= n,
            n == xs.len(),
            xs == cmds@.map_values(|c: String| c@),
            k == 0 ==> r@ == Seq::<char>::empty(),
            k > 0 ==> spec_join(xs, sep@) == r@ + spec_join_from(xs, sep@, k as int),
        decreases n - k,
    {
        proof {
            assert(cmds@[k as int]@ == xs[k as int]);
        }
        let ghost prev = r@;
        if k > 0 {
            r.append(sep);
        }
        r.append(cmds[k].as_str());
        proof {
            if k == 0 {
                assert(r@ =~= xs[0]);
            } else {
                assert(r@ =~= prev + sep@ + xs[k as int]);
                assert(prev + (sep@ + xs[k as int] + spec_join_from(xs, sep@, k + 1)) =~= (prev
                    + sep@ + xs[k as int]) + spec_join_from(xs, sep@, k + 1));
            }
        }
        k = k + 1;
    }
    r
}

/// Interprets what running one command produced. Success yields the
/// command's standard output exactly; a nonzero exit yields the failure
/// with the exit code and the trimmed standard error; a timeout and a
/// spawn failure yield their own errors. Success is returned if and only
/// if the process finished successfully.
pub fn interpret_command_outcome(outcome: CommandOutcome) -> (r: Result<String, CommandError>)
    ensures
        match outcome {
            CommandOutcome::Finished { success, exit_code, stdout, stderr } => {
                if success {
                    r matches Ok(out) && out@ == stdout@
                } else {
                    r matches Err(CommandError::CommandFailed { exit_code: ec, stderr: se })
                        && ec == exit_code && se@ == spec_trim(stderr@)
                }
            },
            CommandOutcome::TimedOut => r matches Err(CommandError::CommandTimedOut),
            CommandOutcome::SpawnFailed { message } => r matches Err(
                CommandError::CommandSpawnError { message: m },
            ) && m@ == message@,
        },
{
    match outcome {
        CommandOutcome::Finished { success, exit_code, stdout, stderr } => {
            if success {
                Ok(stdout)
            } else {
                Err(CommandError::CommandFailed { exit_code, stderr: trim_str(stderr.as_str()) })
            }
        },
        CommandOutcome::TimedOut => Err(CommandError::CommandTimedOut),
        CommandOutcome::SpawnFailed { message } => Err(
            CommandError::CommandSpawnError { message },
        ),
    }
}

/// The rendered text of an exit code.
pub open spec fn spec_exit_code_text(c: Option<i32>) -> Seq<char> {
    match c {
        Some(v) => "Some("@ + spec_i64_string(v as int) + ")"@,
        None => "None"@,
    }
}

/// The inline text of a command's failure, as rendered in place of its
/// output.
pub open spec fn spec_error_message(e: CommandError, cmd: Seq<char>, timeout_secs: u64) -> Seq<
    char,
> {
    match e {
        CommandError::CommandSpawnError { message } => "Failed to spawn command '"@ + cmd + "': "@
            + message@,
        CommandError::CommandFailed { exit_code, stderr } => if stderr@.len() > 0 {
            "Command '"@ + cmd + "' failed with stderr: "@ + stderr@
        } else {
            "Command '"@ + cmd + "' failed with exit code: "@ + spec_exit_code_text(exit_code)
        },
        CommandError::CommandTimedOut => "Command '"@ + cmd + "' timed out after "@
            + spec_nat_string(timeout_secs as nat) + " seconds and was killed"@,
    }
}

impl CommandError {
    /// The inline text of this failure for the given command and timeout.
    pub fn message(&self, cmd: &str, timeout_secs: u64) -> (r: String)
        ensures
            r@ == spec_error_message(*self, cmd@, timeout_secs),
    {
        match self {
            CommandError::CommandSpawnError { message } => {
                let mut s = String::new();
                s.append("Failed to spawn command '");
                s.append(cmd);
                s.append("': ");
                s.append(message.as_str());
                proof {
                    assert(s@ =~= spec_error_message(*self, cmd@, timeout_secs));
                }
                s
            },
            CommandError::CommandFailed { exit_code, stderr } => {
                let mut s = String::new();
                s.append("Command '");
                s.append(cmd);
                if stderr.as_str().unicode_len() > 0 {
                    s.append("' failed with stderr: ");
                    s.append(stderr.as_str());
                } else {
                    s.append("' failed with exit code: ");
                    match exit_code {
                        Some(v) => {
                            s.append("Some(");
                            let digits = crate::text::i64_to_string(*v as i64);
                            s.append(digits.as_str());
                            s.append(")");
                        },
                        None => {
                            s.append("None");
                        },
                    }
                }
                proof {
                    assert(s@ =~= spec_error_message(*self, cmd@, timeout_secs));
                }
                s
            },
            CommandError::CommandTimedOut => {
                let mut s = String::new();
                s.append("Command '");
                s.append(cmd);
                s.append("' timed out after ");
                let digits = u64_to_string(timeout_secs);
                s.append(digits.as_str());
                s.append(" seconds and was killed");
                proof {
                    assert(s@ =~= spec_error_message(*self, cmd@, timeout_secs));
                }
                s
            },
        }
    }
}

/// The deadline of the pass after one wait. A wait that ran out advances
/// the deadline by exactly one interval on the previous deadline, never on
/// the present time, so a slow pass does not drift the schedule; a wait
/// woken early by an interactive event leaves the deadline unchanged.
pub fn next_deadline(prev_deadline_ms: u64, interval_ms: u64, timed_out: bool) -> (next: u64)
    requires
        prev_deadline_ms + interval_ms <= u64::MAX,
    ensures
        next == if timed_out {
            prev_deadline_ms + interval_ms
        } else {
            prev_deadline_ms as int
        },
{
    if timed_out {
        prev_deadline_ms + interval_ms
    } else {
        prev_deadline_ms
    }
}

} // verus!
