//! Command strings: a hook is a `;`-separated sequence of shell
//! invocations, each whitespace-tokenized into an executable and its
//! arguments.  Splitting and tokenization are computed here; the decision
//! logic over the outcomes of the spawned processes is the pure fold
//! `spec_run_commands`, which the process-running shell follows step by
//! step: a segment that is empty after trimming, fails to spawn, or exits
//! non-zero aborts the remaining segments of that command string.

use vstd::prelude::*;

use crate::text::split_char_seq;
use crate::text::split_char_str;
use crate::text::split_ws_seq;
use crate::text::split_ws_str;
use crate::text::to_owned_str;
use crate::text::trim;
use crate::text::trim_str;

verus! {

/// Per-command errors.
#[derive(Debug, PartialEq, Eq, Structural, Clone, Copy)]
pub enum CommandError {
    /// A spawned process exited with a non-zero status.
    CommandFailed,
    /// A command segment was empty after trimming.
    InvalidInput,
    /// A process could not be spawned.
    CreationError,
}

impl CommandError {
    /// A human-readable description, as reported against the node whose
    /// hook failed.
    pub fn describe(&self) -> (r: &'static str)
        ensures
            (*self is CommandFailed) ==> r@ == "Command execution failed."@,
            (*self is InvalidInput) ==> r@ == "Command input was invalid."@,
            (*self is CreationError) ==> r@ == "Command creation failed."@,
    {
        match self {
            CommandError::CommandFailed => "Command execution failed.",
            CommandError::InvalidInput => "Command input was invalid.",
            CommandError::CreationError => "Command creation failed.",
        }
    }
}

/// What became of one attempt to spawn a command segment.
#[derive(Debug, PartialEq, Eq, Structural, Clone, Copy)]
pub enum SpawnOutcome {
    /// The process could not be started.
    NotSpawned,
    /// The process ran and exited with a failure status.
    ExitFailure,
    /// The process ran and exited successfully.
    ExitSuccess,
}

impl View for SpawnOutcome {
    type V = SpawnOutcome;

    open spec fn view(&self) -> SpawnOutcome {
        *self
    }
}

impl DeepView for SpawnOutcome {
    type V = SpawnOutcome;

    open spec fn deep_view(&self) -> SpawnOutcome {
        *self
    }
}

/// The segments of a command string: split on `;`, kept verbatim (each is
/// trimmed at execution time).
pub open spec fn spec_segments(command: Seq<char>) -> Seq<Seq<char>> {
    split_char_seq(command, ';')
}

/// The whitespace-separated tokens of one trimmed segment: the first is
/// the executable, the rest its arguments.
pub open spec fn spec_segment_tokens(segment: Seq<char>) -> Seq<Seq<char>> {
    split_ws_seq(trim(segment))
}

/// The effect of running the segments in order against a pre-recorded
/// sequence of spawn outcomes: the number of processes spawned, and the
/// overall result.  An empty segment yields `InvalidInput` without a
/// spawn; a spawn that fails or exits non-zero yields its error; each of
/// the three aborts the remaining segments.  Segments beyond the supplied
/// outcomes are not reached.
pub open spec fn spec_run_commands(segments: Seq<Seq<char>>, outcomes: Seq<SpawnOutcome>) -> (
    int,
    Result<(), CommandError>,
)
    decreases segments.len(),
{
    if segments.len() == 0 {
        (0, Result::<(), CommandError>::Ok(()))
    } else if spec_segment_tokens(segments[0]).len() == 0 {
        (0, Result::<(), CommandError>::Err(CommandError::InvalidInput))
    } else if outcomes.len() == 0 {
        (0, Result::<(), CommandError>::Ok(()))
    } else {
        match outcomes[0] {
            SpawnOutcome::NotSpawned => (
                1,
                Result::<(), CommandError>::Err(CommandError::CreationError),
            ),
            SpawnOutcome::ExitFailure => (
                1,
                Result::<(), CommandError>::Err(CommandError::CommandFailed),
            ),
            SpawnOutcome::ExitSuccess => {
                let r = spec_run_commands(segments.skip(1), outcomes.skip(1));
                (1 + r.0, r.1)
            },
        }
    }
}

/// The segments of a command string; see `spec_segments`.
pub fn command_segments(command: &str) -> (r: Vec<String>)
    ensures
        r.deep_view() == spec_segments(command@),
{
    split_char_str(command, ';')
}

/// The tokens of one segment; see `spec_segment_tokens`.
pub fn segment_tokens(segment: &str) -> (r: Vec<String>)
    ensures
        r.deep_view() == spec_segment_tokens(segment@),
{
    split_ws_str(trim_str(segment))
}

/// Replay a command string's segments against recorded spawn outcomes;
/// see `spec_run_commands`.  Returns how many processes were spawned and
/// the overall result.
pub fn run_commands_outcome(segments: &Vec<String>, outcomes: &Vec<SpawnOutcome>) -> (r: (
    usize,
    Result<(), CommandError>,
))
    ensures
        r.0 as int == spec_run_commands(segments.deep_view(), outcomes.deep_view()).0,
        r.1 == spec_run_commands(segments.deep_view(), outcomes.deep_view()).1,
{
    let ghost segs_v = segments.deep_view();
    let ghost outs_v = outcomes.deep_view();
    let mut spawned: usize = 0;
    let mut oi: usize = 0;
    let mut i: usize = 0;
    proof {
        assert(segs_v.skip(0) =~= segs_v);
        assert(outs_v.skip(0) =~= outs_v);
    }
    while i < segments.len()
        invariant
            0 <= i <= segs_v.len(),
            0 <= oi <= outs_v.len(),
            oi <= i,
            spawned == oi,
            spec_run_commands(segs_v, outs_v) == {
                let rest = spec_run_commands(segs_v.skip(i as int), outs_v.skip(oi as int));
                (spawned + rest.0, rest.1)
            },
        decreases segs_v.len() - i,
    {
        let ghost seg_rest = segs_v.skip(i as int);
        let ghost out_rest = outs_v.skip(oi as int);
        proof {
            assert(seg_rest[0] == segs_v[i as int]);
            assert(seg_rest.skip(1) =~= segs_v.skip(i + 1));
        }
        let toks = segment_tokens(segments[i].as_str());
        if toks.len() == 0 {
            return (spawned, Result::Err(CommandError::InvalidInput));
        }
        if oi >= outcomes.len() {
            return (spawned, Result::Ok(()));
        }
        proof {
            assert(out_rest[0] == outs_v[oi as int]);
            assert(out_rest.skip(1) =~= outs_v.skip(oi + 1));
        }
        let outcome = outcomes[oi];
        match outcome {
            SpawnOutcome::NotSpawned => {
                return (spawned + 1, Result::Err(CommandError::CreationError));
            },
            SpawnOutcome::ExitFailure => {
                return (spawned + 1, Result::Err(CommandError::CommandFailed));
            },
            SpawnOutcome::ExitSuccess => {
                spawned = spawned + 1;
                oi = oi + 1;
                i = i + 1;
            },
        }
    }
    proof {
        assert(segs_v.skip(segs_v.len() as int) =~= Seq::<Seq<char>>::empty());
    }
    (spawned, Result::Ok(()))
}

} // verus!
