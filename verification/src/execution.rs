//! The order of steps of one request at a service that has to be made ready.
//!
//! An adapter does the waiting, holds the lock of the inner service, and calls
//! it. After each of these it reports what came of it, and is told what to do
//! next.

use crate::controller::Completion;
use crate::request::{completion_of, Step};
use vstd::prelude::*;

verus! {

/// How far a request is.
#[derive(Clone, Copy, Debug, PartialEq, Eq, Structural)]
pub enum Stage {
    /// It waits for its slot.
    Waiting,
    /// It waits for the inner service's lock.
    Locking,
    /// The inner service is being made ready.
    Preparing,
    /// The inner service is ready, and the controller is asked for dispatch.
    Starting,
    /// The inner service is ready, and the request waits for its slot again.
    Resuming,
    /// The inner service is at work.
    Serving,
    /// It has ended.
    Ended,
}

/// What came of the last order.
#[derive(Clone, Copy, Debug, PartialEq, Eq)]
pub enum Report {
    /// What the controller has the queued request do, or nothing where
    /// admission is closed.
    Asked(Option<Step>),
    /// Whether admission was closed when the lock was obtained.
    Locked {
        /// Whether the inner service has failed.
        closed: bool,
    },
    /// Whether the inner service became ready.
    Prepared {
        /// Whether it did.
        ready: bool,
    },
    /// What the controller made of the attempt to dispatch.
    Started(Step),
    /// Whether the inner service answered without an error.
    Answered {
        /// Whether it did.
        healthy: bool,
    },
}

/// What to do next.
#[derive(Clone, Copy, Debug, PartialEq, Eq, Structural)]
pub enum Order {
    /// Ask the controller whether the request may proceed.
    Ask,
    /// Wait as the step says, and ask again.
    Wait(Step),
    /// Obtain the inner service's lock, and keep it until the request is
    /// served.
    Lock,
    /// Make the inner service ready.
    Prepare,
    /// Ask the controller to dispatch the request.
    Start,
    /// Hand the request to the inner service, and release the lock.
    Serve,
    /// Close admission with the inner service's error, wake all waiters, and
    /// end the request with that error.
    Close,
    /// End the request with the error that closed admission.
    Fail,
    /// Record the end of the request, and return the answer.
    Finish(Completion),
}

/// Whether a report belongs to a stage. A reservation is only lost when it is
/// cancelled, which ends the request.
pub open spec fn expected(stage: Stage, report: Report) -> bool {
    match report {
        Report::Asked(step) => {
            &&& stage == Stage::Waiting || stage == Stage::Resuming
            &&& step != Some(Step::Lost)
        },
        Report::Locked { .. } => stage == Stage::Locking,
        Report::Prepared { .. } => stage == Stage::Preparing,
        Report::Started(step) => stage == Stage::Starting && step != Step::Lost,
        Report::Answered { .. } => stage == Stage::Serving,
    }
}

/// The next stage and order.
pub open spec fn decided(stage: Stage, report: Report) -> (Stage, Order) {
    match report {
        Report::Asked(None) => (Stage::Ended, Order::Fail),
        Report::Asked(Some(Step::Proceed)) => if stage == Stage::Waiting {
            (Stage::Locking, Order::Lock)
        } else {
            (Stage::Starting, Order::Start)
        },
        Report::Asked(Some(step)) => (stage, Order::Wait(step)),
        Report::Locked { closed } => if closed {
            (Stage::Ended, Order::Fail)
        } else {
            (Stage::Preparing, Order::Prepare)
        },
        Report::Prepared { ready } => if ready {
            (Stage::Starting, Order::Start)
        } else {
            (Stage::Ended, Order::Close)
        },
        // The pacing deadline may have moved while the inner service was
        // becoming ready. Its readiness is kept.
        Report::Started(Step::Proceed) => (Stage::Serving, Order::Serve),
        Report::Started(_) => (Stage::Resuming, Order::Ask),
        Report::Answered { healthy } => (
            Stage::Ended,
            Order::Finish(
                if healthy {
                    Completion::Success
                } else {
                    Completion::Failure
                },
            ),
        ),
    }
}

/// Decides what to do after a report. The first order is to ask, while waiting.
pub fn execute(stage: Stage, report: Report) -> (r: (Stage, Order))
    requires
        expected(stage, report),
    ensures
        r == decided(stage, report),
{
    match report {
        Report::Asked(asked) => match asked {
            None => (Stage::Ended, Order::Fail),
            Some(step) => match step {
                Step::Proceed => if stage == Stage::Waiting {
                    (Stage::Locking, Order::Lock)
                } else {
                    (Stage::Starting, Order::Start)
                },
                _ => (stage, Order::Wait(step)),
            },
        },
        Report::Locked { closed } => if closed {
            (Stage::Ended, Order::Fail)
        } else {
            (Stage::Preparing, Order::Prepare)
        },
        Report::Prepared { ready } => if ready {
            (Stage::Starting, Order::Start)
        } else {
            (Stage::Ended, Order::Close)
        },
        Report::Started(step) => match step {
            Step::Proceed => (Stage::Serving, Order::Serve),
            _ => (Stage::Resuming, Order::Ask),
        },
        Report::Answered { healthy } => (Stage::Ended, Order::Finish(completion_of(healthy))),
    }
}

/// The inner service is called only right after the controller dispatched the
/// request, and dispatch is attempted only once the inner service is ready: no
/// readiness delay enters the measured latency.
pub proof fn law_dispatch_follows_readiness(stage: Stage, report: Report)
    requires
        expected(stage, report),
    ensures
        decided(stage, report).1 == Order::Serve <==> report == Report::Started(Step::Proceed),
        decided(stage, report).1 == Order::Start ==> report == (Report::Prepared { ready: true })
            || stage == Stage::Resuming,
        decided(stage, report).0 == Stage::Resuming ==> stage == Stage::Starting || stage
            == Stage::Resuming,
{
}

/// A failed service is left alone: once admission is closed, a queued request
/// ends with the failure, and the inner service is neither made ready nor
/// called for it.
pub proof fn law_closed_services_are_not_called(stage: Stage, report: Report)
    requires
        expected(stage, report),
        report == Report::Asked(None) || report == (Report::Locked { closed: true }),
    ensures
        decided(stage, report) == (Stage::Ended, Order::Fail),
{
}

/// Only a failure to become ready closes admission; what the inner service
/// answers never does.
pub proof fn law_only_readiness_failures_close(stage: Stage, report: Report)
    requires
        expected(stage, report),
    ensures
        decided(stage, report).1 == Order::Close <==> report == (Report::Prepared {
            ready: false,
        }),
        stage == Stage::Serving ==> decided(stage, report).1 is Finish,
{
}

/// A request ends exactly when it is failed, closed or finished, and nothing
/// follows.
pub proof fn law_execution_ends_once(stage: Stage, report: Report, next: Report)
    requires
        expected(stage, report),
    ensures
        ({
            let (after, order) = decided(stage, report);
            &&& after == Stage::Ended <==> order is Fail || order is Close || order is Finish
            &&& after == Stage::Ended ==> !expected(after, next)
        }),
{
}

/// A request that may not go yet waits as it was told, where it is; one that
/// may go obtains the lock first, and needs no other lock once it has it.
pub proof fn law_requests_wait_as_told(stage: Stage, step: Step)
    requires
        expected(stage, Report::Asked(Some(step))),
    ensures
        ({
            let (after, order) = decided(stage, Report::Asked(Some(step)));
            &&& step != Step::Proceed ==> order == Order::Wait(step) && after == stage
            &&& step == Step::Proceed && stage == Stage::Waiting ==> order == Order::Lock
                && after == Stage::Locking
            &&& step == Step::Proceed && stage == Stage::Resuming ==> order == Order::Start
                && after == Stage::Starting
        }),
{
}

/// The inner service is made ready under the lock, once, and its readiness is
/// kept where the slot has moved meanwhile: the request asks again, and is
/// started without being prepared a second time.
pub proof fn law_readiness_is_kept(stage: Stage, report: Report)
    requires
        expected(stage, report),
    ensures
        ({
            let (after, order) = decided(stage, report);
            &&& order == Order::Prepare <==> report == (Report::Locked { closed: false })
            &&& order == Order::Prepare <==> after == Stage::Preparing
            &&& report == (Report::Prepared { ready: true }) ==> order == Order::Start && after
                == Stage::Starting
            &&& stage == Stage::Starting && report != Report::Started(Step::Proceed) ==> order
                == Order::Ask && after == Stage::Resuming
            &&& stage == Stage::Starting && report == Report::Started(Step::Proceed) ==> after
                == Stage::Serving
        }),
{
}

/// An answer without an error is a success, any other one a failure, and what
/// was answered was not abandoned.
pub proof fn law_answers_are_recorded(stage: Stage, healthy: bool)
    ensures
        ({
            let (after, order) = decided(stage, Report::Answered { healthy });
            &&& order == Order::Finish(Completion::Success) <==> healthy
            &&& order == Order::Finish(Completion::Failure) <==> !healthy
        }),
{
}

} // verus!
