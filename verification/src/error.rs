//! The error taxonomy of the bridge: channel failures (fatal to the current
//! session), engine initialization failures (fatal to the worker), script
//! evaluation failures and protocol violations (recovered per script body).

use vstd::prelude::*;

verus! {

/// Everything that can go wrong around one script-execution session.
#[derive(Debug, Clone, PartialEq)]
pub enum RetumiError {
    /// Sending a message toward the worker failed: the worker end is gone.
    WorkerSendError,
    /// Sending a message toward the document-owning thread failed.
    MessageSendError,
    /// A blocking receive found the channel empty and disconnected.
    RecvError,
    /// The script engine or its in-engine shim could not be set up.
    JsInitializeError(String),
    /// A script body failed to run, or a message arrived out of sequence.
    JsExecError(String),
}

impl RetumiError {
    /// A fixed description of the error kind, for surfacing to a user.
    pub fn message(&self) -> (r: String)
        ensures
            r@ == match self {
                RetumiError::WorkerSendError => "error while sending message to the JS worker thread"@,
                RetumiError::MessageSendError => "error while sending message to the main thread"@,
                RetumiError::RecvError => "error while receiving message"@,
                RetumiError::JsInitializeError(_) => "error while initializing JavaScript"@,
                RetumiError::JsExecError(_) => "error while executing JavaScript"@,
            },
    {
        match self {
            RetumiError::WorkerSendError => "error while sending message to the JS worker thread".to_owned(),
            RetumiError::MessageSendError => "error while sending message to the main thread".to_owned(),
            RetumiError::RecvError => "error while receiving message".to_owned(),
            RetumiError::JsInitializeError(_) => "error while initializing JavaScript".to_owned(),
            RetumiError::JsExecError(_) => "error while executing JavaScript".to_owned(),
        }
    }
}

} // verus!
