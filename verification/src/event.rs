//! Events surfaced by the page-loading side to the user interface.

use vstd::prelude::*;

verus! {

/// Raised when a requested page's contents have arrived and the page can be
/// rendered.
#[derive(PartialEq, Eq, Clone, PartialOrd)]
pub enum RetumiEvent {
    PageReady,
}

} // verus!
