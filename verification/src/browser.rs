//! Link-cycling for the rendered page: the selection steps through the links
//! and wraps around after the last one; with no selection yet it starts at
//! the first link, and with no links on the page there is nothing to select.

use vstd::prelude::*;

verus! {

/// The next selected link: steps forward from the current selection, wraps
/// from the last link (`link_count`) back to the first, starts at the first
/// link when nothing is selected, and stays empty on a page without links.
/// A selection beyond `link_count` (which the surrounding code never
/// produces) simply steps forward. The one excluded input is the selection
/// the step could not represent.
pub fn cycle_link(current_link: Option<usize>, link_count: usize) -> (r: Option<usize>)
    requires
        current_link matches Some(l) ==> l < usize::MAX,
    ensures
        r == match current_link {
            Some(l) => if l == link_count {
                Some(1usize)
            } else {
                Some((l + 1) as usize)
            },
            None => if link_count > 0 {
                Some(1usize)
            } else {
                None::<usize>
            },
        },
{
    match current_link {
        Some(link) => {
            if link == link_count {
                Some(1)
            } else {
                Some(link + 1)
            }
        },
        None => {
            if link_count > 0 {
                Some(1)
            } else {
                None
            }
        },
    }
}

} // verus!
