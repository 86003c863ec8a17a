//! A cross-thread scripting bridge: a script engine on a worker thread
//! observes and mutates a tree-structured document owned by another thread,
//! without sharing the tree's memory. Nodes are named across the boundary by
//! opaque integer handles, and every document access travels as a typed
//! request over a channel, answered synchronously by the document-owning
//! thread.
#![verifier::loop_isolation(false)]

pub mod browser;
pub mod channel;
pub mod dom;
pub mod driver;
pub mod error;
pub mod event;
pub mod handles;
pub mod laws;
pub mod protocol;
pub mod ui;
pub mod worker;
