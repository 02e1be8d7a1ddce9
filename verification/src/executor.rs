//! Classification of a finished command. Spawning the process and capturing
//! its output is the caller's concern; this module decides, from the exit
//! code and the captured standard output, whether the unit of work
//! succeeded, may be skipped, hit a missing tool, or is fatal for the run.

use vstd::prelude::*;
use vstd::string::StringSliceAdditionalSpecFns;
use vstd::utf8::encode_utf8;

verus! {

/// The exit code a project uses to declare "not applicable": treated as
/// success with empty output.
pub const SKIP_EXIT_CODE: i32 = 254;

/// Mathematical value of a command outcome.
pub struct OutcomeV {
    pub code: Option<i32>,
    pub stdout: Seq<char>,
}

/// What running the command in a project produced: the process exit code
/// (absent when the process was terminated without one) and the captured
/// standard output.
pub struct CommandOutcome {
    pub code: Option<i32>,
    pub stdout: String,
}

impl View for CommandOutcome {
    type V = OutcomeV;

    open spec fn view(&self) -> OutcomeV {
        OutcomeV { code: self.code, stdout: self.stdout@ }
    }
}

impl Clone for CommandOutcome {
    fn clone(&self) -> (r: Self)
        ensures
            r@ == self@,
    {
        CommandOutcome { code: self.code, stdout: self.stdout.clone() }
    }
}

/// `n` occurs as a contiguous run of bytes inside `h`.
pub open spec fn has_substring(h: Seq<u8>, n: Seq<u8>) -> bool {
    exists|i: int| 0 <= i <= h.len() - n.len() && #[trigger] h.subrange(i, i + n.len()) == n
}

/// The marker a failing launcher writes to standard output when the command
/// itself could not be found.
pub open spec fn enoent_marker() -> Seq<u8> {
    encode_utf8("Command failed with ENOENT"@)
}

/// The outcome reports a missing tool rather than a project failure.
pub open spec fn outcome_missing_command(o: OutcomeV) -> bool {
    has_substring(encode_utf8(o.stdout), enoent_marker())
}

/// The outcome is fatal for the whole run: a non-zero exit that is neither
/// the skip code nor a missing-tool report.
pub open spec fn outcome_fatal(o: OutcomeV) -> bool {
    o.code != Option::Some(0i32) && o.code != Option::Some(SKIP_EXIT_CODE)
        && !outcome_missing_command(o)
}

/// The payload a non-fatal outcome contributes: the captured output on a
/// clean exit, nothing otherwise.
pub open spec fn outcome_payload(o: OutcomeV) -> Seq<char> {
    if o.code == Option::Some(0i32) {
        o.stdout
    } else {
        Seq::empty()
    }
}

/// How a finished command is treated.
pub enum CommandVerdict {
    /// Exit code 0: the captured output is the unit's result.
    Success { output: String },
    /// The designated skip exit code: success with empty output.
    Skipped,
    /// The output carries the missing-tool marker: success with empty
    /// output, and a warning surfaced to the user.
    MissingCommand,
    /// Any other outcome: fatal for the whole run.
    Fatal { code: Option<i32>, stdout: String },
}

fn match_at(h: &[u8], n: &[u8], i: usize) -> (r: bool)
    requires
        i + n@.len() <= h@.len(),
    ensures
        r == (h@.subrange(i as int, i + n@.len()) == n@),
{
    let mut j: usize = 0;
    while j < n.len()
        invariant
            i + n@.len() <= h@.len(),
            j <= n@.len(),
            forall|t: int| 0 <= t < j ==> h@[i + t] == n@[t],
        decreases n@.len() - j,
    {
        let hl: usize = h.len();
        assert(i + j < hl);
        if h[i + j] != n[j] {
            proof {
                assert(h@.subrange(i as int, i + n@.len())[j as int] == h@[i + j]);
                assert(h@.subrange(i as int, i + n@.len()) != n@);
            }
            return false;
        }
        j += 1;
    }
    proof {
        assert(h@.subrange(i as int, i + n@.len()) =~= n@);
    }
    true
}

fn bytes_contains(h: &[u8], n: &[u8]) -> (r: bool)
    ensures
        r == has_substring(h@, n@),
{
    if n.len() > h.len() {
        return false;
    }
    if n.len() == 0 {
        proof {
            assert(h@.subrange(0, 0 + n@.len() as int) =~= n@);
        }
        return true;
    }
    let bound = h.len() - n.len();
    let mut i: usize = 0;
    while i <= bound
        invariant
            1 <= n@.len() <= h@.len(),
            h@.len() <= usize::MAX,
            bound == h@.len() - n@.len(),
            i <= bound + 1,
            forall|k: int| 0 <= k < i ==> #[trigger] h@.subrange(k, k + n@.len()) != n@,
        decreases bound + 1 - i,
    {
        if match_at(h, n, i) {
            return true;
        }
        i += 1;
    }
    false
}

/// Decides how a finished command is treated: exit code 0 succeeds with the
/// captured output; the skip exit code succeeds with empty output; an output
/// carrying the missing-tool marker succeeds with empty output but asks for
/// a warning; everything else — any other non-zero exit, or no exit code at
/// all — is fatal, carrying the code and output for the diagnostic.
pub fn classify_command_result(outcome: &CommandOutcome) -> (r: CommandVerdict)
    ensures
        outcome@.code == Option::Some(0i32) ==> (r matches CommandVerdict::Success { output }
            && output@ == outcome@.stdout),
        outcome@.code == Option::Some(SKIP_EXIT_CODE) ==> r is Skipped,
        outcome@.code != Option::Some(0i32) && outcome@.code != Option::Some(SKIP_EXIT_CODE)
            && outcome_missing_command(outcome@) ==> r is MissingCommand,
        outcome_fatal(outcome@) ==> (r matches CommandVerdict::Fatal { code, stdout } && code
            == outcome@.code && stdout@ == outcome@.stdout),
{
    if let Some(c) = outcome.code {
        if c == 0 {
            return CommandVerdict::Success { output: outcome.stdout.clone() };
        }
        if c == SKIP_EXIT_CODE {
            return CommandVerdict::Skipped;
        }
    }
    if bytes_contains(outcome.stdout.as_str().as_bytes(), "Command failed with ENOENT".as_bytes()) {
        CommandVerdict::MissingCommand
    } else {
        CommandVerdict::Fatal { code: outcome.code, stdout: outcome.stdout.clone() }
    }
}

} // verus!
