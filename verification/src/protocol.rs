//! The bridge protocol: the two message kinds exchanged between the worker
//! thread (which runs scripts) and the document-owning thread (which owns the
//! tree and the handle table). Exactly one request is outstanding at a time:
//! the worker sends one request and blocks until the reply arrives.

use vstd::prelude::*;

verus! {

/// A JSON-shaped reply payload: everything the driver ever sends back is
/// null, one handle, one string, or a list of handles.
#[derive(Debug, Clone, PartialEq)]
pub enum Payload {
    Null,
    Num(usize),
    Text(String),
    List(Vec<usize>),
}

/// Mathematical image of a payload.
#[verifier::ext_equal]
pub ghost enum PayloadView {
    Null,
    Num(usize),
    Text(Seq<char>),
    List(Seq<usize>),
}

impl View for Payload {
    type V = PayloadView;

    open spec fn view(&self) -> PayloadView {
        match self {
            Payload::Null => PayloadView::Null,
            Payload::Num(n) => PayloadView::Num(*n),
            Payload::Text(s) => PayloadView::Text(s@),
            Payload::List(v) => PayloadView::List(v@),
        }
    }
}

/// A request from the worker to the document-owning thread. `Done` is the
/// terminal signal: the script body has finished (normally or by an uncaught
/// error) and the driver's receive loop may return.
#[derive(Debug, Clone, PartialEq)]
pub enum JsMessage {
    Print(String),
    GetElementById(String),
    QuerySelector(String),
    GetAttribute(usize, String),
    SetAttribute(usize, String, String),
    SetText(usize, String),
    Done,
}

/// Mathematical image of a request.
#[verifier::ext_equal]
pub ghost enum JsMessageView {
    Print(Seq<char>),
    GetElementById(Seq<char>),
    QuerySelector(Seq<char>),
    GetAttribute(usize, Seq<char>),
    SetAttribute(usize, Seq<char>, Seq<char>),
    SetText(usize, Seq<char>),
    Done,
}

impl View for JsMessage {
    type V = JsMessageView;

    open spec fn view(&self) -> JsMessageView {
        match self {
            JsMessage::Print(s) => JsMessageView::Print(s@),
            JsMessage::GetElementById(s) => JsMessageView::GetElementById(s@),
            JsMessage::QuerySelector(s) => JsMessageView::QuerySelector(s@),
            JsMessage::GetAttribute(h, s) => JsMessageView::GetAttribute(*h, s@),
            JsMessage::SetAttribute(h, s, v) => JsMessageView::SetAttribute(*h, s@, v@),
            JsMessage::SetText(h, s) => JsMessageView::SetText(*h, s@),
            JsMessage::Done => JsMessageView::Done,
        }
    }
}

/// A message from the document-owning thread to the worker: the reply to one
/// request (`Response` on success, `Error` for a failed request, which the
/// worker raises as a script-level exception), a new script body to run, or
/// the process-teardown signal.
#[derive(Debug, Clone, PartialEq)]
pub enum WorkerMsg {
    Response(Payload),
    Error(Payload),
    Execute(String),
    Shutdown,
}

/// Mathematical image of a worker-bound message.
#[verifier::ext_equal]
pub ghost enum WorkerMsgView {
    Response(PayloadView),
    Error(PayloadView),
    Execute(Seq<char>),
    Shutdown,
}

impl View for WorkerMsg {
    type V = WorkerMsgView;

    open spec fn view(&self) -> WorkerMsgView {
        match self {
            WorkerMsg::Response(p) => WorkerMsgView::Response(p@),
            WorkerMsg::Error(p) => WorkerMsgView::Error(p@),
            WorkerMsg::Execute(s) => WorkerMsgView::Execute(s@),
            WorkerMsg::Shutdown => WorkerMsgView::Shutdown,
        }
    }
}

} // verus!
