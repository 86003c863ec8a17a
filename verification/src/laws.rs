//! The laws the bridge keeps, stated and proved over the specification
//! functions that the executable functions' contracts use: handle identity,
//! unknown-handle safety, and one reply per request.

use vstd::prelude::*;

use crate::dom::{elements_by_tag, find_by_id, NodeView};
use crate::driver::{register_all, session, step, unknown_handle_reply};
use crate::handles::{first_index, first_index_from, register, resolve};
use crate::protocol::JsMessageView;

verus! {

/// Appending an entry to the table does not move the first occurrence of any
/// entry already in it, and a fresh entry's first occurrence is the appended
/// position.
proof fn lemma_first_index_push(t: Seq<usize>, x: usize, n: usize, j: int)
    requires
        0 <= j <= t.len(),
    ensures
        first_index_from(t, j, n) < t.len() ==> first_index_from(t.push(x), j, n)
            == first_index_from(t, j, n),
        first_index_from(t, j, n) == t.len() && x == n ==> first_index_from(t.push(x), j, n)
            == t.len() as int,
        first_index_from(t, j, n) == t.len() && x != n ==> first_index_from(t.push(x), j, n) == (
        t.len() + 1) as int,
    decreases t.len() - j,
{
    if j < t.len() {
        assert(t.push(x)[j] == t[j]);
        if t[j] != n {
            lemma_first_index_push(t, x, n, j + 1);
        }
    } else {
        assert(t.push(x)[j] == x);
        if x != n {
            assert(first_index_from(t.push(x), j + 1, n) == (t.len() + 1) as int);
        }
    }
}

/// A registered node's first occurrence lies inside the table, holds the
/// node, and nothing before it does.
proof fn lemma_first_index_bound(t: Seq<usize>, n: usize, j: int)
    requires
        0 <= j <= t.len(),
    ensures
        first_index_from(t, j, n) < t.len() <==> exists|i: int| j <= i < t.len() && t[i] == n,
        j <= first_index_from(t, j, n) <= t.len(),
        first_index_from(t, j, n) < t.len() ==> t[first_index_from(t, j, n)] == n,
        forall|i: int| j <= i < first_index_from(t, j, n) ==> t[i] != n,
    decreases t.len() - j,
{
    if j < t.len() {
        if t[j] != n {
            lemma_first_index_bound(t, n, j + 1);
        }
    }
}

/// The first occurrence is the one position holding the node with none
/// before it.
proof fn lemma_first_index_is(t: Seq<usize>, n: usize, k: int)
    requires
        0 <= k < t.len(),
        t[k] == n,
        forall|i: int| 0 <= i < k ==> t[i] != n,
    ensures
        first_index(t, n) == k,
{
    lemma_first_index_bound(t, n, 0);
    let f = first_index(t, n);
    assert(f < t.len()) by {
        assert(t[k] == n);
    }
    if f < k {
        assert(t[f] == n);
        assert(false);
    }
    if f > k {
        assert(t[k] != n);
        assert(false);
    }
}

/// One table extends another: the shorter is a prefix of the longer.
pub open spec fn table_extends(e: Seq<usize>, t: Seq<usize>) -> bool {
    t.len() <= e.len() && forall|i: int| 0 <= i < t.len() ==> e[i] == #[trigger] t[i]
}

/// Handle identity, at the table: registering a node a second time issues
/// the same handle and leaves the table as it was, however many other nodes
/// were registered in between (the table is append-only within a session).
pub proof fn lemma_handle_identity(t: Seq<usize>, n: usize, m: usize)
    ensures
        register(register(t, n).0, n) == register(t, n),
        t.contains(n) ==> register(register(t, m).0, n).1 == register(t, n).1,
{
    lemma_first_index_bound(t, n, 0);
    if t.contains(n) {
        assert(first_index(t, n) < t.len()) by {
            let w = choose|i: int| 0 <= i < t.len() && t[i] == n;
            assert(t[w] == n);
        }
        if !t.contains(m) {
            lemma_first_index_push(t, m, n, 0);
            assert(t.push(m).contains(n)) by {
                let w = choose|i: int| 0 <= i < t.len() && t[i] == n;
                assert(t.push(m)[w] == n);
            }
        }
    } else {
        assert(forall|i: int| 0 <= i < t.len() ==> t[i] != n);
        assert(first_index(t, n) == t.len() as int);
        let t2 = t.push(n);
        assert(t2.contains(n)) by {
            assert(t2[t.len() as int] == n);
        }
        lemma_first_index_push(t, n, n, 0);
        assert(first_index(t2, n) == t.len() as int);
        assert(register(t2, n) == (t2, t.len() as int));
    }
}

/// Handle identity, at the protocol: two `GetElementById` requests for the
/// same identifier, one after the other, reply with the same handle, and the
/// second leaves the table exactly as the first left it.
pub proof fn lemma_get_element_by_id_twice(d: Seq<NodeView>, t: Seq<usize>, id: Seq<char>)
    ensures
        step(step(d, t, JsMessageView::GetElementById(id)).doc,
            step(d, t, JsMessageView::GetElementById(id)).table,
            JsMessageView::GetElementById(id)).reply
            == step(d, t, JsMessageView::GetElementById(id)).reply,
        step(step(d, t, JsMessageView::GetElementById(id)).doc,
            step(d, t, JsMessageView::GetElementById(id)).table,
            JsMessageView::GetElementById(id)).table
            == step(d, t, JsMessageView::GetElementById(id)).table,
{
    match find_by_id(d, id) {
        Some(n) => {
            lemma_handle_identity(t, n, n);
        },
        None => {},
    }
}

/// Unknown-handle safety: a request that reads or mutates through a handle
/// this table never issued replies with the error payload and leaves both
/// the document and the table untouched.
pub proof fn lemma_unknown_handle_safety(d: Seq<NodeView>, t: Seq<usize>, req: JsMessageView)
    requires
        match req {
            JsMessageView::GetAttribute(h, _) => resolve(t, h) is None,
            JsMessageView::SetAttribute(h, _, _) => resolve(t, h) is None,
            JsMessageView::SetText(h, _) => resolve(t, h) is None,
            _ => false,
        },
    ensures
        step(d, t, req).reply == unknown_handle_reply(),
        step(d, t, req).doc == d,
        step(d, t, req).table == t,
{
}

/// Once a node is in a table, any extension of that table issues the same
/// handle for it.
proof fn lemma_register_extends(t: Seq<usize>, e: Seq<usize>, n: usize)
    requires
        table_extends(e, t),
        t.contains(n),
    ensures
        e.contains(n),
        register(e, n) == (e, register(t, n).1),
{
    lemma_first_index_bound(t, n, 0);
    let k = first_index(t, n);
    assert(k < t.len()) by {
        let w = choose|i: int| 0 <= i < t.len() && t[i] == n;
        assert(t[w] == n);
    }
    assert(e[k] == n);
    assert(e.contains(n)) by {
        assert(e[k] == n);
    }
    assert(forall|i: int| 0 <= i < k ==> e[i] == t[i] && t[i] != n);
    lemma_first_index_is(e, n, k);
}

/// Registering a batch only appends to the table, every batched node ends up
/// registered, and re-registering the batch against any extension of the
/// resulting table changes nothing and issues the same handles.
proof fn lemma_register_all_stable(t: Seq<usize>, ids: Seq<usize>, e: Seq<usize>)
    requires
        table_extends(e, register_all(t, ids).0),
    ensures
        table_extends(register_all(t, ids).0, t),
        register_all(e, ids) == (e, register_all(t, ids).1),
    decreases ids.len(),
{
    if ids.len() == 0 {
    } else {
        let front = ids.drop_last();
        let n = ids.last();
        let t1 = register_all(t, front).0;
        let hs = register_all(t, front).1;
        let t2 = register(t1, n).0;
        assert(register_all(t, ids).0 == t2);
        assert(table_extends(t2, t1));
        assert(table_extends(e, t1));
        lemma_register_all_stable(t, front, e);
        assert(register_all(e, front) == (e, hs));
        if t1.contains(n) {
            lemma_register_extends(t1, e, n);
        } else {
            assert(t2 == t1.push(n));
            assert(t2[t1.len() as int] == n);
            assert(e[t1.len() as int] == n);
            assert(forall|i: int| 0 <= i < t1.len() ==> e[i] == t1[i] && t1[i] != n);
            lemma_first_index_is(e, n, t1.len() as int);
            assert(e.contains(n)) by {
                assert(e[t1.len() as int] == n);
            }
            assert(register(e, n) == (e, t1.len() as int));
            assert(register(t1, n).1 == t1.len() as int);
        }
    }
}

/// Handle identity for whole query replies: a `QuerySelector` request
/// repeated immediately replies with the very same handle list and leaves
/// the table exactly as the first request left it.
pub proof fn lemma_query_selector_twice(d: Seq<NodeView>, t: Seq<usize>, tag: Seq<char>)
    ensures
        step(step(d, t, JsMessageView::QuerySelector(tag)).doc,
            step(d, t, JsMessageView::QuerySelector(tag)).table,
            JsMessageView::QuerySelector(tag)).reply
            == step(d, t, JsMessageView::QuerySelector(tag)).reply,
        step(step(d, t, JsMessageView::QuerySelector(tag)).doc,
            step(d, t, JsMessageView::QuerySelector(tag)).table,
            JsMessageView::QuerySelector(tag)).table
            == step(d, t, JsMessageView::QuerySelector(tag)).table,
{
    let ids = elements_by_tag(d, tag);
    let t1 = register_all(t, ids).0;
    assert(table_extends(t1, t1));
    lemma_register_all_stable(t, ids, t1);
}

/// Handle identity across the whole protocol: no request removes or moves a
/// table entry, so the handle a node was once given stays its handle whatever
/// request is serviced next.
pub proof fn lemma_handles_stable_for_session(
    d: Seq<NodeView>,
    t: Seq<usize>,
    req: JsMessageView,
    n: usize,
)
    requires
        t.contains(n),
    ensures
        table_extends(step(d, t, req).table, t),
        register(step(d, t, req).table, n).1 == register(t, n).1,
{
    let t2 = step(d, t, req).table;
    match req {
        JsMessageView::GetElementById(id) => {
            match find_by_id(d, id) {
                Some(m) => {
                    assert(table_extends(t2, t));
                    lemma_register_extends(t, t2, n);
                },
                None => {},
            }
        },
        JsMessageView::QuerySelector(tag) => {
            let ids = elements_by_tag(d, tag);
            lemma_register_all_stable(t, ids, register_all(t, ids).0);
            lemma_register_extends(t, t2, n);
        },
        _ => {},
    }
}

/// The handle table is append-only: no request removes or moves an entry.
pub proof fn lemma_table_append_only(d: Seq<NodeView>, t: Seq<usize>, req: JsMessageView)
    ensures
        table_extends(step(d, t, req).table, t),
{
    match req {
        JsMessageView::QuerySelector(tag) => {
            let ids = elements_by_tag(d, tag);
            lemma_register_all_stable(t, ids, register_all(t, ids).0);
        },
        _ => {},
    }
}

/// Extension of tables is transitive.
proof fn lemma_extends_trans(a: Seq<usize>, b: Seq<usize>, c: Seq<usize>)
    requires
        table_extends(a, b),
        table_extends(b, c),
    ensures
        table_extends(a, c),
{
}

/// Across a whole request stream the table only grows, so a handle issued at
/// any point resolves to the same node for the rest of the session: handles
/// are only discarded with the table itself.
pub proof fn lemma_session_resolution_stable(
    d: Seq<NodeView>,
    t: Seq<usize>,
    reqs: Seq<JsMessageView>,
    h: usize,
)
    ensures
        table_extends(session(d, t, reqs).table, t),
        resolve(t, h) is Some ==> resolve(session(d, t, reqs).table, h) == resolve(t, h),
    decreases reqs.len(),
{
    if reqs.len() > 0 && !(reqs[0] is Done) {
        let s = step(d, t, reqs[0]);
        lemma_table_append_only(d, t, reqs[0]);
        lemma_session_resolution_stable(s.doc, s.table, reqs.drop_first(), h);
        lemma_extends_trans(session(d, t, reqs).table, s.table, t);
    }
}

/// Protocol alternation, on the driver's side: servicing a request stream
/// that holds no terminal signal sends back exactly one reply per request,
/// so the driver never owes or volunteers a reply.
pub proof fn lemma_one_reply_per_request(d: Seq<NodeView>, t: Seq<usize>, reqs: Seq<JsMessageView>)
    requires
        forall|i: int| 0 <= i < reqs.len() ==> !((#[trigger] reqs[i]) is Done),
    ensures
        session(d, t, reqs).replies.len() == reqs.len(),
    decreases reqs.len(),
{
    if reqs.len() > 0 {
        assert(!(reqs[0] is Done));
        let s = step(d, t, reqs[0]);
        let rest = reqs.drop_first();
        assert(forall|i: int| 0 <= i < rest.len() ==> !((#[trigger] rest[i]) is Done)) by {
            assert(forall|i: int|
                0 <= i < rest.len() ==> rest[i] == reqs[i + 1] && !(#[trigger] rest[i] is Done));
        }
        lemma_one_reply_per_request(s.doc, s.table, rest);
    }
}

} // verus!
