//! The worker thread's side of the bridge: one long-lived script engine per
//! process. The worker waits for a command; a script body is evaluated and
//! acknowledged with the terminal `Done` signal, a reply arriving where a
//! command was expected is a protocol violation, and the teardown signal
//! ends the loop after one last `Done` to unblock a waiting driver.

use vstd::prelude::*;

use crate::channel::{recv_command, report_script_error, send_to_main};
use crate::error::RetumiError;
use crate::protocol::{JsMessage, Payload, PayloadView, WorkerMsg, WorkerMsgView};

verus! {

#[verifier::external_type_specification]
#[verifier::external_body]
pub struct ExContext(boa_engine::Context);

/// Relies on boa_engine::Context::eval: compiles and runs the source on this
/// engine, handing back the error as text when the script fails. What the
/// script does, including the requests its native calls send, is outside
/// what is assumed here.
#[verifier::external_body]
fn eval_source(ctx: &mut boa_engine::Context, src: &str) -> (r: Result<(), String>) {
    match ctx.eval(boa_engine::Source::from_bytes(src.as_bytes())) {
        Ok(_) => Ok(()),
        Err(e) => Err(e.to_string()),
    }
}

/// What the worker does with one incoming command.
pub enum WorkerAction {
    /// Evaluate this source, then acknowledge with `Done`.
    RunScript(String),
    /// The message is a reply where a command was expected: a protocol
    /// violation, reported and fatal to the worker loop.
    Reject,
    /// Teardown: acknowledge with one last `Done` and stop the loop.
    Finish,
}

/// Mathematical image of a worker action.
#[verifier::ext_equal]
pub ghost enum WorkerActionView {
    RunScript(Seq<char>),
    Reject,
    Finish,
}

impl View for WorkerAction {
    type V = WorkerActionView;

    open spec fn view(&self) -> WorkerActionView {
        match self {
            WorkerAction::RunScript(s) => WorkerActionView::RunScript(s@),
            WorkerAction::Reject => WorkerActionView::Reject,
            WorkerAction::Finish => WorkerActionView::Finish,
        }
    }
}

/// The worker's decision for one incoming command: run an `Execute` body,
/// reject an out-of-sequence reply, finish on `Shutdown`.
pub open spec fn worker_decision(m: WorkerMsgView) -> WorkerActionView {
    match m {
        WorkerMsgView::Execute(src) => WorkerActionView::RunScript(src),
        WorkerMsgView::Response(_) => WorkerActionView::Reject,
        WorkerMsgView::Error(_) => WorkerActionView::Reject,
        WorkerMsgView::Shutdown => WorkerActionView::Finish,
    }
}

/// Decides what to do with one incoming command.
pub fn worker_step(msg: WorkerMsg) -> (a: WorkerAction)
    ensures
        a@ == worker_decision(msg@),
{
    match msg {
        WorkerMsg::Execute(src) => WorkerAction::RunScript(src),
        WorkerMsg::Response(_) => WorkerAction::Reject,
        WorkerMsg::Error(_) => WorkerAction::Reject,
        WorkerMsg::Shutdown => WorkerAction::Finish,
    }
}

/// Acts on one received command, with the turn's full contract over the
/// command: an `Execute` body is evaluated (a script failure is reported,
/// never returned) and acknowledged with exactly one `Done`, so the reply is
/// `Ok(false)` unless that acknowledgement could not be sent; a reply where a
/// command was expected returns the protocol-violation error and sends
/// nothing; `Shutdown` is acknowledged with one last `Done` and reports
/// `Ok(true)`: the worker loop must stop.
pub fn act_on_command(
    ctx: &mut boa_engine::Context,
    tx: &crossbeam::channel::Sender<JsMessage>,
    msg: WorkerMsg,
) -> (r: Result<bool, RetumiError>)
    ensures
        worker_decision(msg@) is RunScript ==> (r == Ok::<bool, RetumiError>(false) || r == Err::<
            bool,
            RetumiError,
        >(RetumiError::MessageSendError)),
        worker_decision(msg@) is Finish ==> (r == Ok::<bool, RetumiError>(true) || r == Err::<
            bool,
            RetumiError,
        >(RetumiError::MessageSendError)),
        worker_decision(msg@) is Reject ==> (r matches Err(e) && e matches
            RetumiError::JsExecError(s) && s@ == "got unexpected worker response"@),
{
    match worker_step(msg) {
        WorkerAction::RunScript(src) => {
            match eval_source(ctx, src.as_str()) {
                Ok(u) => {},
                Err(e) => report_script_error(&e),
            }
            match send_to_main(tx, JsMessage::Done) {
                Ok(u) => Ok(false),
                Err(e) => Err(e),
            }
        },
        WorkerAction::Reject => Err(
            RetumiError::JsExecError("got unexpected worker response".to_owned()),
        ),
        WorkerAction::Finish => {
            match send_to_main(tx, JsMessage::Done) {
                Ok(u) => Ok(true),
                Err(e) => Err(e),
            }
        },
    }
}

/// One whole worker turn: receives a command and acts on it through
/// `act_on_command`, which ties the outcome to the received command. Which
/// command arrives depends on the driver and is not modelled here, so this
/// contract can only bound the error kinds; the enclosing loop (which may
/// block forever on a silent driver) repeats the turn until teardown.
pub fn run_worker_once(
    ctx: &mut boa_engine::Context,
    rx: &crossbeam::channel::Receiver<WorkerMsg>,
    tx: &crossbeam::channel::Sender<JsMessage>,
) -> (r: Result<bool, RetumiError>)
    ensures
        r matches Err(e) ==> (e == RetumiError::RecvError || e == RetumiError::MessageSendError
            || (e matches RetumiError::JsExecError(s) && s@ == "got unexpected worker response"@)),
{
    let msg = match recv_command(rx) {
        Ok(m) => m,
        Err(e) => {
            return Err(e);
        },
    };
    act_on_command(ctx, tx, msg)
}

/// What a native entry point does with the reply it blocked for: a success
/// payload is delivered to the script, an error payload is raised as a
/// script-level exception, and a command where a reply was expected is a
/// protocol violation.
#[derive(Debug, Clone, PartialEq)]
pub enum ReplyAction {
    Deliver(Payload),
    Raise(Payload),
    Violation,
}

/// Mathematical image of a reply action.
#[verifier::ext_equal]
pub ghost enum ReplyActionView {
    Deliver(PayloadView),
    Raise(PayloadView),
    Violation,
}

impl View for ReplyAction {
    type V = ReplyActionView;

    open spec fn view(&self) -> ReplyActionView {
        match self {
            ReplyAction::Deliver(p) => ReplyActionView::Deliver(p@),
            ReplyAction::Raise(p) => ReplyActionView::Raise(p@),
            ReplyAction::Violation => ReplyActionView::Violation,
        }
    }
}

/// The native entry point's decision for one reply.
pub open spec fn reply_decision(m: WorkerMsgView) -> ReplyActionView {
    match m {
        WorkerMsgView::Response(p) => ReplyActionView::Deliver(p),
        WorkerMsgView::Error(p) => ReplyActionView::Raise(p),
        WorkerMsgView::Execute(_) => ReplyActionView::Violation,
        WorkerMsgView::Shutdown => ReplyActionView::Violation,
    }
}

/// Decides what a native entry point does with one reply.
pub fn classify_reply(msg: WorkerMsg) -> (a: ReplyAction)
    ensures
        a@ == reply_decision(msg@),
{
    match msg {
        WorkerMsg::Response(p) => ReplyAction::Deliver(p),
        WorkerMsg::Error(p) => ReplyAction::Raise(p),
        WorkerMsg::Execute(_) => ReplyAction::Violation,
        WorkerMsg::Shutdown => ReplyAction::Violation,
    }
}

} // verus!
