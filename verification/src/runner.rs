//! How a run is judged once its workload is over.
use crate::config::AppConfig;
use crate::duration::Duration;
use crate::ledger::AssertionResult;
use crate::lifecycle::{CompletionStatus, LifecycleEvent};
use crate::metrics::MetricsSnapshot;
use crate::report::{self, RunReport, RunStatus};
use crate::scenarios::ScenarioOutcome;
use crate::timestamp::Timestamp;
use vstd::prelude::*;
use vstd::string::*;

verus! {

/// A completed execution always carries a sanitized report, including failed scenarios.
#[derive(Debug)]
pub struct RunExecution {
    pub report: RunReport,
    pub failure: Option<String>,
}

impl RunExecution {
    /// Whether nothing failed and the report says that the run passed.
    pub open spec fn has_passed(self) -> bool {
        self.failure is None && self.report.status == RunStatus::Passed
    }

    /// Whether the execution passed.
    pub fn passed(&self) -> (result: bool)
        ensures
            result == self.has_passed(),
    {
        self.failure.is_none() && self.report.status == RunStatus::Passed
    }

    /// The report of an execution that passed. Of any other, the failure, or else why the run
    /// stopped.
    pub fn into_result(self) -> (result: Result<RunReport, String>)
        ensures
            result is Ok <==> self.has_passed(),
            match result {
                Ok(report) => report == self.report,
                Err(error) => error == (match self.failure {
                    Some(failure) => failure,
                    None => self.report.stop_reason,
                }),
            },
    {
        match self.failure {
            Some(failure) => Err(failure),
            None => match self.report.status {
                RunStatus::Passed => Ok(self.report),
                _ => Err(self.report.stop_reason),
            },
        }
    }
}

/// Whether some assertion did not pass.
pub open spec fn some_failed(assertions: Seq<AssertionResult>) -> bool {
    exists|i: int| 0 <= i < assertions.len() && !(#[trigger] assertions[i]).passed
}

/// Whether a scenario ended with neither a failed assertion nor a failed participant.
pub open spec fn went_well(outcome: Result<ScenarioOutcome, String>) -> bool {
    outcome matches Ok(value) && !some_failed(value.assertions@)
        && value.participant_failures@.len() == 0
}

/// How a run ended: a threshold aborts it; else it passed where the scenario went well.
pub open spec fn status_of(
    threshold: Option<String>,
    outcome: Result<ScenarioOutcome, String>,
) -> RunStatus {
    if threshold is Some {
        RunStatus::Aborted
    } else if went_well(outcome) {
        RunStatus::Passed
    } else {
        RunStatus::Failed
    }
}

/// Why a run ended: the threshold, completion, a failed routing assertion, or else an error.
pub open spec fn stop_reason_of(
    threshold: Option<String>,
    outcome: Result<ScenarioOutcome, String>,
) -> Seq<char> {
    match threshold {
        Some(reason) => reason@,
        None => if went_well(outcome) {
            "completed"@
        } else if outcome matches Ok(value) && some_failed(value.assertions@) {
            "routing_assertion_failed"@
        } else {
            "scenario_error"@
        },
    }
}

/// The failure of a run, if it failed: the error of the scenario, or else where to look.
pub open spec fn failure_of(outcome: Result<ScenarioOutcome, String>) -> Option<Seq<char>> {
    match outcome {
        Err(error) => Some(error@),
        Ok(_) => if went_well(outcome) {
            None
        } else {
            Some("run failed; see the sanitized JSON report"@)
        },
    }
}

/// Whether some assertion did not pass.
fn any_failed(assertions: &Vec<AssertionResult>) -> (result: bool)
    ensures
        result == some_failed(assertions@),
{
    let mut i: usize = 0;
    while i < assertions.len()
        invariant
            i <= assertions.len(),
            forall|k: int| 0 <= k < i ==> (#[trigger] assertions@[k]).passed,
        decreases assertions.len() - i,
    {
        if !assertions[i].passed {
            return true;
        }
        i = i + 1;
    }
    false
}

/// Judges a run and reports it. A scenario that ended with an error leaves no assertions and no
/// participant failures to report.
pub fn finish_run(
    config: &AppConfig,
    started_at: Timestamp,
    finished_at: Timestamp,
    elapsed: Duration,
    metrics: MetricsSnapshot,
    threshold: Option<String>,
    outcome: Result<ScenarioOutcome, String>,
) -> (execution: RunExecution)
    ensures
        ({
            let told = execution.report;
            &&& told.version@ == "0.2.0"@
            &&& told.started_at == started_at
            &&& told.finished_at == finished_at
            &&& told.elapsed_ms == elapsed@ / 1_000_000
            &&& told.environment == config.environment
            &&& told.target@ == config.target.server@
            &&& told.profile == config.run.profile
            &&& told.clients == config.run.clients
            &&& told.metrics == metrics
            &&& told.stop_reason@ == stop_reason_of(threshold, outcome)
            &&& told.status == status_of(threshold, outcome)
            &&& match told.abort_reason {
                Some(reason) => told.status != RunStatus::Passed && reason@ == stop_reason_of(
                    threshold,
                    outcome,
                ),
                None => told.status == RunStatus::Passed,
            }
            &&& match outcome {
                Ok(value) => told.assertions == value.assertions && told.participant_failures
                    == value.participant_failures,
                Err(_) => told.assertions@.len() == 0 && told.participant_failures@.len() == 0,
            }
            &&& told.sanitized_config@ == report::sanitized(*config)
        }),
        match execution.failure {
            Some(failure) => failure_of(outcome) == Some(failure@),
            None => failure_of(outcome) is None,
        },
{
    let aborted = threshold.is_some();
    let (assertions, participant_failures, error) = match outcome {
        Ok(value) => (value.assertions, value.participant_failures, None),
        Err(error) => (Vec::new(), Vec::new(), Some(error)),
    };
    let assertions_failed = any_failed(&assertions);
    let participants_failed = participant_failures.len() > 0;
    let well = error.is_none() && !assertions_failed && !participants_failed;
    let stop_reason = match threshold {
        Some(reason) => reason,
        None => if well {
            "completed".to_owned()
        } else if assertions_failed {
            "routing_assertion_failed".to_owned()
        } else {
            "scenario_error".to_owned()
        },
    };
    let status = if aborted {
        RunStatus::Aborted
    } else if well {
        RunStatus::Passed
    } else {
        RunStatus::Failed
    };
    let report = RunReport::new(
        config,
        started_at,
        finished_at,
        elapsed,
        metrics,
        stop_reason,
        status,
        assertions,
        participant_failures,
    );
    let failure = match error {
        Some(error) => Some(error),
        None => if well {
            None
        } else {
            Some("run failed; see the sanitized JSON report".to_owned())
        },
    };
    RunExecution { report, failure }
}

/// The lifecycle event that tells how a run was completed.
pub fn completion_event(status: RunStatus) -> (event: LifecycleEvent)
    ensures
        event == (LifecycleEvent::RunCompleted {
            status: match status {
                RunStatus::Passed => CompletionStatus::Passed,
                RunStatus::Failed => CompletionStatus::Failed,
                RunStatus::Aborted => CompletionStatus::Aborted,
            },
        }),
{
    LifecycleEvent::RunCompleted {
        status: match status {
            RunStatus::Passed => CompletionStatus::Passed,
            RunStatus::Failed => CompletionStatus::Failed,
            RunStatus::Aborted => CompletionStatus::Aborted,
        },
    }
}

/// A run passes just where no threshold was crossed and the scenario ended with neither a failed
/// assertion nor a failed participant; and such a run has no failure.
pub proof fn law_passing_means_nothing_failed(
    threshold: Option<String>,
    outcome: Result<ScenarioOutcome, String>,
)
    ensures
        status_of(threshold, outcome) == RunStatus::Passed <==> threshold is None && went_well(
            outcome,
        ),
        status_of(threshold, outcome) == RunStatus::Passed ==> failure_of(outcome) is None,
        status_of(threshold, outcome) == RunStatus::Failed ==> failure_of(outcome) is Some,
{
}

/// What ended a run is told by what happened, in this order: a threshold aborts it with its own
/// reason; else it failed where a scenario ended with an error, an assertion did not pass or a
/// participant failed; else it is completed and passed.
pub proof fn law_runs_end_as_they_went(
    threshold: Option<String>,
    outcome: Result<ScenarioOutcome, String>,
    index: int,
)
    ensures
        threshold matches Some(reason) ==> status_of(threshold, outcome) == RunStatus::Aborted
            && stop_reason_of(threshold, outcome) == reason@,
        threshold is None && outcome is Err ==> status_of(threshold, outcome) == RunStatus::Failed
            && stop_reason_of(threshold, outcome) == "scenario_error"@,
        outcome matches Err(error) ==> failure_of(outcome) == Some(error@),
        outcome matches Ok(value) ==> {
            &&& 0 <= index < value.assertions@.len() && !value.assertions@[index].passed ==> {
                &&& failure_of(outcome) is Some
                &&& threshold is None ==> status_of(threshold, outcome) == RunStatus::Failed
                    && stop_reason_of(threshold, outcome) == "routing_assertion_failed"@
            }
            &&& value.participant_failures@.len() > 0 ==> {
                &&& failure_of(outcome) is Some
                &&& threshold is None ==> status_of(threshold, outcome) == RunStatus::Failed
            }
            &&& value.participant_failures@.len() > 0 && threshold is None && (forall|i: int|
                0 <= i < value.assertions@.len() ==> (#[trigger] value.assertions@[i]).passed)
                ==> stop_reason_of(threshold, outcome) == "scenario_error"@
            &&& value.participant_failures@.len() == 0 && (forall|i: int|
                0 <= i < value.assertions@.len() ==> (#[trigger] value.assertions@[i]).passed) ==> {
                &&& failure_of(outcome) is None
                &&& threshold is None ==> status_of(threshold, outcome) == RunStatus::Passed
                    && stop_reason_of(threshold, outcome) == "completed"@
            }
        },
{
}

/// An execution passes just where it has no failure and its report says so.
pub proof fn law_executions_pass_by_their_report(execution: RunExecution)
    ensures
        execution.has_passed() <==> execution.failure is None && execution.report.status
            == RunStatus::Passed,
{
}

} // verus!
