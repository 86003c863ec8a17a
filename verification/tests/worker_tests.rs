use crossbeam::channel::unbounded;
use retumi::error::RetumiError;
use retumi::protocol::{JsMessage, Payload, WorkerMsg};
use retumi::worker::{act_on_command, classify_reply, run_worker_once, worker_step, ReplyAction, WorkerAction};

#[test]
fn worker_step_execute_runs_the_script() {
    match worker_step(WorkerMsg::Execute("1 + 1".to_string())) {
        WorkerAction::RunScript(src) => assert_eq!(src, "1 + 1"),
        _ => panic!("Execute must run the script"),
    }
}

#[test]
fn worker_step_replies_are_protocol_violations() {
    assert!(matches!(
        worker_step(WorkerMsg::Response(Payload::Null)),
        WorkerAction::Reject
    ));
    assert!(matches!(
        worker_step(WorkerMsg::Error(Payload::Text("e".to_string()))),
        WorkerAction::Reject
    ));
}

#[test]
fn worker_step_shutdown_finishes() {
    assert!(matches!(worker_step(WorkerMsg::Shutdown), WorkerAction::Finish));
}

#[test]
fn worker_runs_script_and_acknowledges() {
    let (cmd_tx, cmd_rx) = unbounded::<WorkerMsg>();
    let (req_tx, req_rx) = unbounded::<JsMessage>();
    let mut ctx = boa_engine::Context::default();
    cmd_tx.send(WorkerMsg::Execute("1 + 1".to_string())).unwrap();
    assert_eq!(run_worker_once(&mut ctx, &cmd_rx, &req_tx), Ok(false));
    assert_eq!(req_rx.recv(), Ok(JsMessage::Done));
}

#[test]
fn worker_acknowledges_even_a_failing_script() {
    let (cmd_tx, cmd_rx) = unbounded::<WorkerMsg>();
    let (req_tx, req_rx) = unbounded::<JsMessage>();
    let mut ctx = boa_engine::Context::default();
    cmd_tx.send(WorkerMsg::Execute("throw new Error('boom')".to_string())).unwrap();
    assert_eq!(run_worker_once(&mut ctx, &cmd_rx, &req_tx), Ok(false));
    assert_eq!(req_rx.recv(), Ok(JsMessage::Done));
}

#[test]
fn worker_shutdown_acknowledges_and_stops() {
    // The teardown round trip with no script in flight: the worker answers
    // one last Done and reports that its loop must stop, so the owning
    // thread's join completes.
    let (cmd_tx, cmd_rx) = unbounded::<WorkerMsg>();
    let (req_tx, req_rx) = unbounded::<JsMessage>();
    let mut ctx = boa_engine::Context::default();
    cmd_tx.send(WorkerMsg::Shutdown).unwrap();
    assert_eq!(run_worker_once(&mut ctx, &cmd_rx, &req_tx), Ok(true));
    assert_eq!(req_rx.recv(), Ok(JsMessage::Done));
    assert_eq!(req_rx.len(), 0);
}

#[test]
fn worker_rejects_out_of_sequence_reply() {
    let (cmd_tx, cmd_rx) = unbounded::<WorkerMsg>();
    let (req_tx, req_rx) = unbounded::<JsMessage>();
    let mut ctx = boa_engine::Context::default();
    cmd_tx.send(WorkerMsg::Response(Payload::Null)).unwrap();
    assert_eq!(
        run_worker_once(&mut ctx, &cmd_rx, &req_tx),
        Err(RetumiError::JsExecError("got unexpected worker response".to_string()))
    );
    assert_eq!(req_rx.len(), 0);
}

#[test]
fn worker_disconnected_command_channel_is_recv_error() {
    let (cmd_tx, cmd_rx) = unbounded::<WorkerMsg>();
    let (req_tx, _req_rx) = unbounded::<JsMessage>();
    drop(cmd_tx);
    let mut ctx = boa_engine::Context::default();
    assert_eq!(run_worker_once(&mut ctx, &cmd_rx, &req_tx), Err(RetumiError::RecvError));
}

#[test]
fn worker_disconnected_request_channel_is_send_error() {
    let (cmd_tx, cmd_rx) = unbounded::<WorkerMsg>();
    let (req_tx, req_rx) = unbounded::<JsMessage>();
    drop(req_rx);
    cmd_tx.send(WorkerMsg::Execute("1 + 1".to_string())).unwrap();
    let mut ctx = boa_engine::Context::default();
    assert_eq!(
        run_worker_once(&mut ctx, &cmd_rx, &req_tx),
        Err(RetumiError::MessageSendError)
    );
}

#[test]
fn act_on_command_runs_script_and_acknowledges_once() {
    let (req_tx, req_rx) = unbounded::<JsMessage>();
    let mut ctx = boa_engine::Context::default();
    let r = act_on_command(&mut ctx, &req_tx, WorkerMsg::Execute("1 + 1".to_string()));
    assert_eq!(r, Ok(false));
    assert_eq!(req_rx.len(), 1);
    assert_eq!(req_rx.recv(), Ok(JsMessage::Done));
}

#[test]
fn act_on_command_acknowledges_even_a_failing_script() {
    let (req_tx, req_rx) = unbounded::<JsMessage>();
    let mut ctx = boa_engine::Context::default();
    let r = act_on_command(
        &mut ctx,
        &req_tx,
        WorkerMsg::Execute("throw new Error('boom')".to_string()),
    );
    assert_eq!(r, Ok(false));
    assert_eq!(req_rx.len(), 1);
    assert_eq!(req_rx.recv(), Ok(JsMessage::Done));
}

#[test]
fn act_on_command_shutdown_acknowledges_and_stops() {
    let (req_tx, req_rx) = unbounded::<JsMessage>();
    let mut ctx = boa_engine::Context::default();
    let r = act_on_command(&mut ctx, &req_tx, WorkerMsg::Shutdown);
    assert_eq!(r, Ok(true));
    assert_eq!(req_rx.len(), 1);
    assert_eq!(req_rx.recv(), Ok(JsMessage::Done));
}

#[test]
fn act_on_command_rejects_reply_and_sends_nothing() {
    let (req_tx, req_rx) = unbounded::<JsMessage>();
    let mut ctx = boa_engine::Context::default();
    let r = act_on_command(&mut ctx, &req_tx, WorkerMsg::Response(Payload::Null));
    assert_eq!(
        r,
        Err(RetumiError::JsExecError("got unexpected worker response".to_string()))
    );
    assert_eq!(req_rx.len(), 0);
}

#[test]
fn act_on_command_reports_lost_acknowledgement() {
    let (req_tx, req_rx) = unbounded::<JsMessage>();
    drop(req_rx);
    let mut ctx = boa_engine::Context::default();
    let r = act_on_command(&mut ctx, &req_tx, WorkerMsg::Execute("1 + 1".to_string()));
    assert_eq!(r, Err(RetumiError::MessageSendError));
}

#[test]
fn classify_reply_maps_each_message() {
    assert_eq!(
        classify_reply(WorkerMsg::Response(Payload::Num(3))),
        ReplyAction::Deliver(Payload::Num(3))
    );
    assert_eq!(
        classify_reply(WorkerMsg::Error(Payload::Text("bad".to_string()))),
        ReplyAction::Raise(Payload::Text("bad".to_string()))
    );
    assert_eq!(
        classify_reply(WorkerMsg::Execute("1".to_string())),
        ReplyAction::Violation
    );
    assert_eq!(classify_reply(WorkerMsg::Shutdown), ReplyAction::Violation);
}
