//! The trusted boundary to the channel crate. The bridge runs over two
//! unbounded multi-producer channels; everything verified about the bridge
//! treats a send or a blocking receive as an opaque step that either succeeds
//! or reports the matching channel error.

use vstd::prelude::*;

use crate::error::RetumiError;
use crate::protocol::{JsMessage, WorkerMsg};
use std::io::Write;

verus! {

#[verifier::external_type_specification]
#[verifier::external_body]
#[verifier::reject_recursive_types(T)]
pub struct ExSender<T>(crossbeam::channel::Sender<T>);

#[verifier::external_type_specification]
#[verifier::external_body]
#[verifier::reject_recursive_types(T)]
pub struct ExReceiver<T>(crossbeam::channel::Receiver<T>);

/// Relies on crossbeam::channel::Sender::send: on an unbounded channel it
/// fails only when every receiver is gone, handing the message back.
#[verifier::external_body]
pub(crate) fn send_to_worker(tx: &crossbeam::channel::Sender<WorkerMsg>, msg: WorkerMsg) -> (r:
    Result<(), RetumiError>)
    ensures
        r matches Err(e) ==> e == RetumiError::WorkerSendError,
{
    tx.send(msg).map_err(|_| RetumiError::WorkerSendError)
}

/// Relies on crossbeam::channel::Sender::send: on an unbounded channel it
/// fails only when every receiver is gone, handing the message back.
#[verifier::external_body]
pub(crate) fn send_to_main(tx: &crossbeam::channel::Sender<JsMessage>, msg: JsMessage) -> (r:
    Result<(), RetumiError>)
    ensures
        r matches Err(e) ==> e == RetumiError::MessageSendError,
{
    tx.send(msg).map_err(|_| RetumiError::MessageSendError)
}

/// Relies on crossbeam::channel::Receiver::recv: blocks until a message
/// arrives, failing only when the channel is empty and disconnected. Which
/// message arrives depends on the other thread: nothing more is assumed.
#[verifier::external_body]
pub(crate) fn recv_request(rx: &crossbeam::channel::Receiver<JsMessage>) -> (r: Result<
    JsMessage,
    RetumiError,
>)
    ensures
        r matches Err(e) ==> e == RetumiError::RecvError,
{
    rx.recv().map_err(|_| RetumiError::RecvError)
}

/// Relies on crossbeam::channel::Receiver::recv: blocks until a message
/// arrives, failing only when the channel is empty and disconnected. Which
/// message arrives depends on the other thread: nothing more is assumed.
#[verifier::external_body]
pub(crate) fn recv_command(rx: &crossbeam::channel::Receiver<WorkerMsg>) -> (r: Result<
    WorkerMsg,
    RetumiError,
>)
    ensures
        r matches Err(e) ==> e == RetumiError::RecvError,
{
    rx.recv().map_err(|_| RetumiError::RecvError)
}

/// Relies on std::io::stdout and the writeln macro: emits one console line
/// for a script's print request.
#[verifier::external_body]
pub(crate) fn print_console(msg: &String) {
    let _ = writeln!(std::io::stdout(), "[JS console] {}", msg);
}

/// Relies on std::io::stderr and the writeln macro: reports a script body
/// that failed to evaluate.
#[verifier::external_body]
pub(crate) fn report_script_error(msg: &String) {
    let _ = writeln!(std::io::stderr(), "in JS execution: {}", msg);
}

} // verus!
