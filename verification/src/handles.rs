//! The handle table: opaque small integers standing in for document nodes
//! across the thread boundary. A handle is the position at which a node was
//! first registered, so the table is a sequence of node indices, append-only
//! for its whole life, holding each node at most once.

use vstd::prelude::*;

use crate::dom::NodeView;

verus! {

/// First position of `node` in `t` at or after `j`, or the length of `t`
/// when `node` does not occur there.
pub open spec fn first_index_from(t: Seq<usize>, j: int, node: usize) -> int
    decreases t.len() - j,
{
    if j < 0 || j >= t.len() {
        t.len() as int
    } else if t[j] == node {
        j
    } else {
        first_index_from(t, j + 1, node)
    }
}

/// First position of `node` in `t`, or the length of `t` when absent.
pub open spec fn first_index(t: Seq<usize>, node: usize) -> int {
    first_index_from(t, 0, node)
}

/// The table after registering `node`, paired with the handle issued for it:
/// the position of its first occurrence, appending the node only when it was
/// not registered before.
pub open spec fn register(t: Seq<usize>, node: usize) -> (Seq<usize>, int) {
    if t.contains(node) {
        (t, first_index(t, node))
    } else {
        (t.push(node), t.len() as int)
    }
}

/// The node a handle stands for, if the handle was issued by this table.
pub open spec fn resolve(t: Seq<usize>, h: usize) -> Option<usize> {
    if h < t.len() {
        Some(t[h as int])
    } else {
        None
    }
}

/// Relation of a table to the document it indexes: every registered node is
/// in bounds, and no node is registered twice.
pub open spec fn table_wf(t: Seq<usize>, d: Seq<NodeView>) -> bool {
    &&& forall|i: int| 0 <= i < t.len() ==> #[trigger] t[i] < d.len()
    &&& t.no_duplicates()
}

/// The session state held by the document-owning thread: the mapping from
/// issued handles to nodes, created fresh for each page load.
#[derive(Debug, Clone, PartialEq)]
pub struct EngineContext {
    pub handles: Vec<usize>,
}

impl View for EngineContext {
    type V = Seq<usize>;

    open spec fn view(&self) -> Seq<usize> {
        self.handles@
    }
}

impl EngineContext {
    /// An empty table: no handle has been issued.
    pub fn new() -> (r: Self)
        ensures
            r@ == Seq::<usize>::empty(),
    {
        EngineContext { handles: Vec::new() }
    }

    /// Returns the handle already issued for `node`, or issues the next one.
    /// The same node (by index identity) always yields the same handle.
    pub fn get_handle(&mut self, node: usize) -> (h: usize)
        ensures
            final(self)@ == register(old(self)@, node).0,
            h as int == register(old(self)@, node).1,
            h < final(self)@.len(),
            final(self)@[h as int] == node,
    {
        let ghost t = self@;
        let mut j: usize = 0;
        while j < self.handles.len()
            invariant
                0 <= j <= t.len(),
                self@ == t,
                first_index(t, node) == first_index_from(t, j as int, node),
                forall|k: int| 0 <= k < j ==> t[k] != node,
            decreases self.handles.len() - j,
        {
            if self.handles[j] == node {
                proof {
                    assert(t.contains(node)) by {
                        assert(t[j as int] == node);
                    }
                }
                return j;
            }
            j = j + 1;
        }
        proof {
            assert(!t.contains(node));
        }
        let h = self.handles.len();
        self.handles.push(node);
        h
    }

    /// The node a handle resolves to, or nothing for a handle this table
    /// never issued.
    pub fn get_element(&self, handle: usize) -> (r: Option<usize>)
        ensures
            r == resolve(self@, handle),
    {
        if handle < self.handles.len() {
            Some(self.handles[handle])
        } else {
            None
        }
    }
}

} // verus!
