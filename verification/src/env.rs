//! Output-mode and prompt decisions from what the environment says.
use vstd::prelude::*;
use crate::analyze::AnalyzeOutcome;

verus! {

/// JSON is emitted automatically inside an agent session or when stdout is not a terminal.
pub fn should_auto_json(is_agent: bool, stdout_is_tty: bool) -> (r: bool)
    ensures
        r == (is_agent || !stdout_is_tty),
{
    is_agent || !stdout_is_tty
}

/// Prompts are skipped inside an agent session or when stdin is not a terminal.
pub fn should_skip_prompts(is_agent: bool, stdin_is_tty: bool) -> (r: bool)
    ensures
        r == (is_agent || !stdin_is_tty),
{
    is_agent || !stdin_is_tty
}

/// The output mode: an explicit `--pretty` wins, else `--json`, else the automatic choice.
pub fn resolve_json(pretty: bool, json: bool, auto_json: bool) -> (r: bool)
    ensures
        r == (!pretty && (json || auto_json)),
{
    if pretty {
        false
    } else {
        json || auto_json
    }
}

/// When `analyze` should exit with a failure status.
#[derive(Clone, Copy, PartialEq, Eq, Structural, Debug)]
pub enum FailOn {
    Any,
    Unmaintained,
    Never,
}

/// Whether the analysis outcome fails the run under the chosen policy.
pub fn should_fail(fail_on: FailOn, outcome: &AnalyzeOutcome) -> (r: bool)
    ensures
        r == match fail_on {
            FailOn::Never => false,
            FailOn::Any => outcome.any_finding,
            FailOn::Unmaintained => outcome.has_unmaintained,
        },
{
    match fail_on {
        FailOn::Never => false,
        FailOn::Any => outcome.any_finding,
        FailOn::Unmaintained => outcome.has_unmaintained,
    }
}

/// The exit status of `analyze`.
pub fn exit_code(fail_on: FailOn, outcome: &AnalyzeOutcome) -> (r: i32)
    ensures
        r == (if should_fail_spec(fail_on, outcome) { 1i32 } else { 0i32 }),
{
    if should_fail(fail_on, outcome) {
        1
    } else {
        0
    }
}

pub open spec fn should_fail_spec(fail_on: FailOn, outcome: &AnalyzeOutcome) -> bool {
    match fail_on {
        FailOn::Never => false,
        FailOn::Any => outcome.any_finding,
        FailOn::Unmaintained => outcome.has_unmaintained,
    }
}

} // verus!
