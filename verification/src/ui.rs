//! Identifiers of the user interface's widgets.

use vstd::prelude::*;

verus! {

/// One identifier per mounted widget.
#[derive(Debug, Eq, PartialEq, Clone, Hash)]
pub enum Id {
    UrlBar,
    ErrorBar,
    Page,
    Closer,
}

} // verus!
