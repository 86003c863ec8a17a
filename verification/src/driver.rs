//! The execution driver: the document-owning thread's side of the bridge.
//! For each request it reads or mutates the tree, registers handles, and
//! produces the reply; the effect of every request is the mathematical
//! function `step`, and the effect of a whole request stream is `session`.

use vstd::prelude::*;

use crate::channel::{print_console, recv_request, send_to_worker};
use crate::dom::{
    attr_value_of, doc_with_attr, doc_with_text, elements_by_tag, find_by_id, has_parent_slot, Doc,
    NodeView, get_attribute, get_element_by_id, query_selector, set_attribute, set_text,
};
use crate::error::RetumiError;
use crate::handles::{register, resolve, table_wf, EngineContext};
use crate::protocol::{
    JsMessage, JsMessageView, Payload, PayloadView, WorkerMsg, WorkerMsgView,
};

verus! {

/// The table and the issued handles after registering every node of `ids` in
/// order, reusing the handle of a node registered before.
pub open spec fn register_all(t: Seq<usize>, ids: Seq<usize>) -> (Seq<usize>, Seq<usize>)
    decreases ids.len(),
{
    if ids.len() == 0 {
        (t, Seq::empty())
    } else {
        let (t1, hs) = register_all(t, ids.drop_last());
        let (t2, h) = register(t1, ids.last());
        (t2, hs.push(h as usize))
    }
}

/// The full effect of servicing one request: the document and handle table
/// afterwards, the reply sent back, and the console line emitted, if any.
#[verifier::ext_equal]
pub ghost struct StepView {
    pub doc: Seq<NodeView>,
    pub table: Seq<usize>,
    pub reply: WorkerMsgView,
    pub print: Option<Seq<char>>,
}

/// What servicing one (non-terminal) request does, as a function of the
/// document, the handle table and the request.
pub open spec fn step(d: Seq<NodeView>, t: Seq<usize>, req: JsMessageView) -> StepView {
    match req {
        JsMessageView::Print(s) => StepView {
            doc: d,
            table: t,
            reply: WorkerMsgView::Response(PayloadView::Null),
            print: Some(s),
        },
        JsMessageView::GetElementById(id) => match find_by_id(d, id) {
            Some(n) => StepView {
                doc: d,
                table: register(t, n).0,
                reply: WorkerMsgView::Response(PayloadView::Num(register(t, n).1 as usize)),
                print: None,
            },
            None => StepView {
                doc: d,
                table: t,
                reply: WorkerMsgView::Response(PayloadView::Null),
                print: None,
            },
        },
        JsMessageView::QuerySelector(tag) => StepView {
            doc: d,
            table: register_all(t, elements_by_tag(d, tag)).0,
            reply: WorkerMsgView::Response(
                PayloadView::List(register_all(t, elements_by_tag(d, tag)).1),
            ),
            print: None,
        },
        JsMessageView::GetAttribute(h, name) => match resolve(t, h) {
            Some(n) => StepView {
                doc: d,
                table: t,
                reply: match attr_value_of(d[n as int], name) {
                    Some(v) => WorkerMsgView::Response(PayloadView::Text(v)),
                    None => WorkerMsgView::Response(PayloadView::Null),
                },
                print: None,
            },
            None => StepView { doc: d, table: t, reply: unknown_handle_reply(), print: None },
        },
        JsMessageView::SetAttribute(h, name, value) => match resolve(t, h) {
            Some(n) => StepView {
                doc: doc_with_attr(d, n, name, value),
                table: t,
                reply: WorkerMsgView::Response(PayloadView::Null),
                print: None,
            },
            None => StepView { doc: d, table: t, reply: unknown_handle_reply(), print: None },
        },
        JsMessageView::SetText(h, text) => match resolve(t, h) {
            Some(n) => StepView {
                doc: doc_with_text(d, n, text),
                table: t,
                reply: WorkerMsgView::Response(PayloadView::Null),
                print: None,
            },
            None => StepView { doc: d, table: t, reply: unknown_handle_reply(), print: None },
        },
        JsMessageView::Done => StepView {
            doc: d,
            table: t,
            reply: WorkerMsgView::Response(PayloadView::Null),
            print: None,
        },
    }
}

/// The reply to any request that names a handle this session never issued.
pub open spec fn unknown_handle_reply() -> WorkerMsgView {
    WorkerMsgView::Error(PayloadView::Text("unrecognized handle"@))
}

/// Registering an in-bounds node keeps the table well-formed.
proof fn lemma_register_wf(t: Seq<usize>, d: Seq<NodeView>, node: usize)
    requires
        table_wf(t, d),
        node < d.len(),
    ensures
        table_wf(register(t, node).0, d),
{
    if !t.contains(node) {
        let t2 = t.push(node);
        assert forall|i: int, j: int| 0 <= i < t2.len() && 0 <= j < t2.len() && i != j implies t2[i]
            != t2[j] by {
            if i < t.len() && j < t.len() {
            } else if i == t.len() {
                assert(t2[j] == t[j]);
            } else {
                assert(t2[i] == t[i]);
            }
        }
        assert(t2.no_duplicates());
    }
}

/// Services one request against the document and the handle table, and hands
/// back the reply to send. The terminal `Done` signal is not a request: the
/// receive loop stops on it instead of calling this. A `Print` request also
/// emits its console line.
pub fn handle_request(dom: &mut Doc, js_state: &mut EngineContext, req: &JsMessage) -> (r:
    WorkerMsg)
    requires
        old(dom).wf(),
        table_wf(old(js_state)@, old(dom)@),
        !(req@ is Done),
    ensures
        final(dom)@ == step(old(dom)@, old(js_state)@, req@).doc,
        final(js_state)@ == step(old(dom)@, old(js_state)@, req@).table,
        r@ == step(old(dom)@, old(js_state)@, req@).reply,
        final(dom).wf(),
        table_wf(final(js_state)@, final(dom)@),
{
    let ghost d0 = dom@;
    let ghost t0 = js_state@;
    match req {
        JsMessage::Print(s) => {
            print_console(s);
            WorkerMsg::Response(Payload::Null)
        },
        JsMessage::GetElementById(id) => {
            match get_element_by_id(dom, id) {
                Some(n) => {
                    proof {
                        lemma_register_wf(t0, d0, n);
                    }
                    let h = js_state.get_handle(n);
                    WorkerMsg::Response(Payload::Num(h))
                },
                None => WorkerMsg::Response(Payload::Null),
            }
        },
        JsMessage::QuerySelector(tag) => {
            let ids = query_selector(dom, tag);
            let mut hs: Vec<usize> = Vec::new();
            let mut j: usize = 0;
            while j < ids.len()
                invariant
                    0 <= j <= ids.len(),
                    ids@ == elements_by_tag(d0, tag@),
                    forall|k: int| 0 <= k < ids@.len() ==> #[trigger] ids@[k] < d0.len(),
                    dom@ == d0,
                    js_state@ == register_all(t0, ids@.take(j as int)).0,
                    hs@ == register_all(t0, ids@.take(j as int)).1,
                    table_wf(js_state@, d0),
                decreases ids.len() - j,
            {
                let ghost tpre = js_state@;
                let n = ids[j];
                proof {
                    lemma_register_wf(tpre, d0, n);
                    assert(ids@.take(j + 1).drop_last() =~= ids@.take(j as int));
                    assert(ids@.take(j + 1).last() == ids@[j as int]);
                }
                let h = js_state.get_handle(n);
                hs.push(h);
                j = j + 1;
            }
            proof {
                assert(ids@.take(ids@.len() as int) =~= ids@);
            }
            WorkerMsg::Response(Payload::List(hs))
        },
        JsMessage::GetAttribute(h, name) => {
            match js_state.get_element(*h) {
                Some(n) => {
                    assert(n < dom.nodes.len());
                    match get_attribute(dom, n, name) {
                        Some(v) => WorkerMsg::Response(Payload::Text(v)),
                        None => WorkerMsg::Response(Payload::Null),
                    }
                },
                None => WorkerMsg::Error(Payload::Text("unrecognized handle".to_owned())),
            }
        },
        JsMessage::SetAttribute(h, name, value) => {
            match js_state.get_element(*h) {
                Some(n) => {
                    assert(n < dom.nodes.len());
                    set_attribute(dom, n, name, value);
                    WorkerMsg::Response(Payload::Null)
                },
                None => WorkerMsg::Error(Payload::Text("unrecognized handle".to_owned())),
            }
        },
        JsMessage::SetText(h, text) => {
            match js_state.get_element(*h) {
                Some(n) => {
                    assert(n < dom.nodes.len());
                    set_text(dom, n, text);
                    WorkerMsg::Response(Payload::Null)
                },
                None => WorkerMsg::Error(Payload::Text("unrecognized handle".to_owned())),
            }
        },
        JsMessage::Done => {
            proof {
                assert(false);
            }
            WorkerMsg::Response(Payload::Null)
        },
    }
}

/// The state of one script body's request stream after the driver has
/// serviced it: the document and table afterwards, the replies sent, the
/// console lines emitted, and whether the terminal signal was seen.
#[verifier::ext_equal]
pub ghost struct SessionView {
    pub doc: Seq<NodeView>,
    pub table: Seq<usize>,
    pub replies: Seq<WorkerMsgView>,
    pub prints: Seq<Seq<char>>,
    pub done: bool,
}

/// What servicing a whole request stream does: every request before the
/// first `Done` is serviced by `step`, in order, one reply each; requests
/// after the first `Done` are never read.
pub open spec fn session(d: Seq<NodeView>, t: Seq<usize>, reqs: Seq<JsMessageView>) -> SessionView
    decreases reqs.len(),
{
    if reqs.len() == 0 {
        SessionView { doc: d, table: t, replies: Seq::empty(), prints: Seq::empty(), done: false }
    } else if reqs[0] is Done {
        SessionView { doc: d, table: t, replies: Seq::empty(), prints: Seq::empty(), done: true }
    } else {
        let s = step(d, t, reqs[0]);
        let rest = session(s.doc, s.table, reqs.drop_first());
        SessionView {
            doc: rest.doc,
            table: rest.table,
            replies: seq![s.reply] + rest.replies,
            prints: (match s.print {
                Some(p) => seq![p],
                None => Seq::empty(),
            }) + rest.prints,
            done: rest.done,
        }
    }
}

/// The views of a vector of requests.
pub open spec fn reqs_view(reqs: Seq<JsMessage>) -> Seq<JsMessageView> {
    reqs.map_values(|m: JsMessage| m@)
}

/// Services a whole request stream against the document and the table,
/// stopping at the first `Done`. Returns the replies in order, the console
/// lines emitted in order, and whether `Done` was seen. Together with the
/// functional contract this makes the driver deterministic: the final
/// document, the replies and the printed lines are functions of the initial
/// document, the table and the request stream alone.
pub fn run_requests(dom: &mut Doc, js_state: &mut EngineContext, reqs: &Vec<JsMessage>) -> (r: (
    Vec<WorkerMsg>,
    Vec<String>,
    bool,
))
    requires
        old(dom).wf(),
        table_wf(old(js_state)@, old(dom)@),
    ensures
        final(dom)@ == session(old(dom)@, old(js_state)@, reqs_view(reqs@)).doc,
        final(js_state)@ == session(old(dom)@, old(js_state)@, reqs_view(reqs@)).table,
        r.0@.map_values(|m: WorkerMsg| m@) == session(old(dom)@, old(js_state)@, reqs_view(reqs@)).replies,
        r.1@.map_values(|s: String| s@) == session(old(dom)@, old(js_state)@, reqs_view(reqs@)).prints,
        r.2 == session(old(dom)@, old(js_state)@, reqs_view(reqs@)).done,
        final(dom).wf(),
        table_wf(final(js_state)@, final(dom)@),
{
    let ghost d0 = dom@;
    let ghost t0 = js_state@;
    let ghost rv = reqs_view(reqs@);
    let mut replies: Vec<WorkerMsg> = Vec::new();
    let mut prints: Vec<String> = Vec::new();
    let mut i: usize = 0;
    proof {
        assert(rv.skip(0) =~= rv);
        assert(Seq::<WorkerMsgView>::empty() + session(dom@, js_state@, rv).replies =~= session(
            dom@,
            js_state@,
            rv,
        ).replies);
        assert(Seq::<Seq<char>>::empty() + session(dom@, js_state@, rv).prints =~= session(
            dom@,
            js_state@,
            rv,
        ).prints);
    }
    while i < reqs.len()
        invariant
            0 <= i <= reqs.len(),
            rv == reqs_view(reqs@),
            dom.wf(),
            table_wf(js_state@, dom@),
            session(d0, t0, rv).doc == session(dom@, js_state@, rv.skip(i as int)).doc,
            session(d0, t0, rv).table == session(dom@, js_state@, rv.skip(i as int)).table,
            session(d0, t0, rv).done == session(dom@, js_state@, rv.skip(i as int)).done,
            session(d0, t0, rv).replies == replies@.map_values(|m: WorkerMsg| m@) + session(
                dom@,
                js_state@,
                rv.skip(i as int),
            ).replies,
            session(d0, t0, rv).prints == prints@.map_values(|s: String| s@) + session(
                dom@,
                js_state@,
                rv.skip(i as int),
            ).prints,
        decreases reqs.len() - i,
    {
        let req = &reqs[i];
        proof {
            assert(rv.skip(i as int)[0] == rv[i as int]);
            assert(rv[i as int] == req@);
        }
        let is_done = match req {
            JsMessage::Done => true,
            _ => false,
        };
        if is_done {
            proof {
                assert(replies@.map_values(|m: WorkerMsg| m@) + session(
                    dom@,
                    js_state@,
                    rv.skip(i as int),
                ).replies =~= replies@.map_values(|m: WorkerMsg| m@));
                assert(prints@.map_values(|s: String| s@) + session(
                    dom@,
                    js_state@,
                    rv.skip(i as int),
                ).prints =~= prints@.map_values(|s: String| s@));
            }
            return (replies, prints, true);
        }
        let ghost dpre = dom@;
        let ghost tpre = js_state@;
        let ghost printspre = prints@;
        let ghost repliespre = replies@;
        match req {
            JsMessage::Print(s) => {
                prints.push(s.clone());
            },
            _ => {},
        }
        let reply = handle_request(dom, js_state, req);
        replies.push(reply);
        proof {
            assert(rv.skip(i as int).drop_first() =~= rv.skip(i + 1));
            let s = step(dpre, tpre, rv[i as int]);
            assert(session(dpre, tpre, rv.skip(i as int)).replies == seq![s.reply] + session(
                s.doc,
                s.table,
                rv.skip(i + 1),
            ).replies);
            assert(replies@.map_values(|m: WorkerMsg| m@) =~= repliespre.map_values(
                |m: WorkerMsg| m@,
            ).push(s.reply));
            assert(repliespre.map_values(|m: WorkerMsg| m@) + (seq![s.reply] + session(
                s.doc,
                s.table,
                rv.skip(i + 1),
            ).replies) =~= replies@.map_values(|m: WorkerMsg| m@) + session(
                s.doc,
                s.table,
                rv.skip(i + 1),
            ).replies);
            match s.print {
                Some(p) => {
                    assert(prints@.map_values(|s2: String| s2@) =~= printspre.map_values(
                        |s2: String| s2@,
                    ).push(p));
                    assert(printspre.map_values(|s2: String| s2@) + (seq![p] + session(
                        s.doc,
                        s.table,
                        rv.skip(i + 1),
                    ).prints) =~= prints@.map_values(|s2: String| s2@) + session(
                        s.doc,
                        s.table,
                        rv.skip(i + 1),
                    ).prints);
                },
                None => {
                    assert(prints@ == printspre);
                    assert(printspre.map_values(|s2: String| s2@) + (Seq::<Seq<char>>::empty()
                        + session(s.doc, s.table, rv.skip(i + 1)).prints) =~= prints@.map_values(
                        |s2: String| s2@,
                    ) + session(s.doc, s.table, rv.skip(i + 1)).prints);
                },
            }
        }
        i = i + 1;
    }
    proof {
        assert(rv.skip(i as int) =~= Seq::<JsMessageView>::empty());
        assert(replies@.map_values(|m: WorkerMsg| m@) + session(
            dom@,
            js_state@,
            rv.skip(i as int),
        ).replies =~= replies@.map_values(|m: WorkerMsg| m@));
        assert(prints@.map_values(|s: String| s@) + session(
            dom@,
            js_state@,
            rv.skip(i as int),
        ).prints =~= prints@.map_values(|s: String| s@));
    }
    (replies, prints, false)
}

/// Receives one request and services it: replies to an ordinary request,
/// reports `Ok(true)` without replying when the terminal `Done` signal
/// arrives, and hands channel failures back. One call of this is the
/// driver's whole turn in the strictly alternating protocol; the enclosing
/// receive loop (which may block forever on a silent worker) repeats it
/// until `Done`.
pub fn service_one(
    dom: &mut Doc,
    js_state: &mut EngineContext,
    rx: &crossbeam::channel::Receiver<JsMessage>,
    tx: &crossbeam::channel::Sender<WorkerMsg>,
) -> (r: Result<bool, RetumiError>)
    requires
        old(dom).wf(),
        table_wf(old(js_state)@, old(dom)@),
    ensures
        final(dom).wf(),
        table_wf(final(js_state)@, final(dom)@),
        r == Ok::<bool, RetumiError>(true) || r == Err::<bool, RetumiError>(
            RetumiError::RecvError,
        ) ==> final(dom)@ == old(dom)@ && final(js_state)@ == old(js_state)@,
        r == Ok::<bool, RetumiError>(false) || r == Err::<bool, RetumiError>(
            RetumiError::WorkerSendError,
        ) ==> exists|req: JsMessageView|
            !(req is Done) && final(dom)@ == step(old(dom)@, old(js_state)@, req).doc
                && final(js_state)@ == step(old(dom)@, old(js_state)@, req).table,
        r matches Err(e) ==> (e == RetumiError::RecvError || e == RetumiError::WorkerSendError),
{
    let ghost d0 = dom@;
    let ghost t0 = js_state@;
    let msg = match recv_request(rx) {
        Ok(m) => m,
        Err(e) => {
            return Err(e);
        },
    };
    let is_done = match &msg {
        JsMessage::Done => true,
        _ => false,
    };
    if is_done {
        return Ok(true);
    }
    let reply = handle_request(dom, js_state, &msg);
    proof {
        assert(!(msg@ is Done) && dom@ == step(d0, t0, msg@).doc && js_state@ == step(
            d0,
            t0,
            msg@,
        ).table);
    }
    match send_to_worker(tx, reply) {
        Ok(u) => Ok(false),
        Err(e) => Err(e),
    }
}

/// Whether the child slot `(a, b)` comes strictly before position `(i, j)`
/// in the row-major walk of all child slots of the arena.
spec fn slot_before(d: Seq<NodeView>, a: int, b: int, i: int, j: int) -> bool {
    0 <= a < d.len() && 0 <= b < d[a].children.len() && (a < i || (a == i && b < j))
}

/// Checks the document's well-formedness: nonempty, every child index
/// strictly between its parent's index and the arena's length, no index in
/// two child slots, and every index but the root in one.
pub fn check_document(doc: &Doc) -> (r: bool)
    ensures
        r == doc.wf(),
{
    let ghost d = doc@;
    if doc.nodes.len() == 0 {
        return false;
    }
    let n = doc.nodes.len();
    let mut i: usize = 0;
    while i < n
        invariant
            0 <= i <= n,
            forall|a: int, b: int|
                0 <= a < i && 0 <= b < d[a].children.len() ==> a < #[trigger] d[a].children[b]
                    < d.len(),
        decreases n - i,
    {
        let mut j: usize = 0;
        while j < doc.nodes[i].children.len()
            invariant
                0 <= i < n,
                0 <= j <= d[i as int].children.len(),
                forall|b: int| 0 <= b < j ==> i < #[trigger] d[i as int].children[b] < d.len(),
            decreases d[i as int].children.len() - j,
        {
            let c = doc.nodes[i].children[j];
            if c <= i || c >= n {
                return false;
            }
            j = j + 1;
        }
        i = i + 1;
    }
    assert(forall|a: int, b: int|
        0 <= a < d.len() && 0 <= b < d[a].children.len() ==> a < #[trigger] d[a].children[b]
            < d.len());
    let mut seen: Vec<bool> = Vec::new();
    let mut m: usize = 0;
    while m < n
        invariant
            0 <= m <= n,
            seen@.len() == m,
            forall|c: int| 0 <= c < m ==> !(#[trigger] seen@[c]),
        decreases n - m,
    {
        seen.push(false);
        m = m + 1;
    }
    let mut i2: usize = 0;
    while i2 < n
        invariant
            0 <= i2 <= n,
            seen@.len() == n,
            forall|c: int|
                0 <= c < n ==> (#[trigger] seen@[c] <==> exists|a: int, b: int|
                    slot_before(d, a, b, i2 as int, 0) && #[trigger] d[a].children[b] == c),
            forall|a: int, b: int, a2: int, b2: int|
                #![trigger d[a].children[b], d[a2].children[b2]]
                slot_before(d, a, b, i2 as int, 0) && slot_before(d, a2, b2, i2 as int, 0) && d[
                    a
                ].children[b] == d[a2].children[b2] ==> a == a2 && b == b2,
        decreases n - i2,
    {
        let mut j2: usize = 0;
        while j2 < doc.nodes[i2].children.len()
            invariant
                0 <= i2 < n,
                0 <= j2 <= d[i2 as int].children.len(),
                seen@.len() == n,
                forall|c: int|
                    0 <= c < n ==> (#[trigger] seen@[c] <==> exists|a: int, b: int|
                        slot_before(d, a, b, i2 as int, j2 as int) && #[trigger] d[
                            a
                        ].children[b] == c),
                forall|a: int, b: int, a2: int, b2: int|
                    #![trigger d[a].children[b], d[a2].children[b2]]
                    slot_before(d, a, b, i2 as int, j2 as int) && slot_before(
                        d,
                        a2,
                        b2,
                        i2 as int,
                        j2 as int,
                    ) && d[a].children[b] == d[a2].children[b2] ==> a == a2 && b == b2,
            decreases d[i2 as int].children.len() - j2,
        {
            let c = doc.nodes[i2].children[j2];
            assert(i2 < c < n);
            if seen[c] {
                proof {
                    let (a, b) = choose|a: int, b: int|
                        slot_before(d, a, b, i2 as int, j2 as int) && #[trigger] d[
                            a
                        ].children[b] == c as int;
                    assert(d[a].children[b] == d[i2 as int].children[j2 as int]);
                    assert(!(a == i2 as int && b == j2 as int));
                    assert(!doc.wf());
                }
                return false;
            }
            seen[c] = true;
            proof {
                let ghost jn = j2 + 1;
                assert forall|c2: int| 0 <= c2 < n implies (#[trigger] seen@[c2]
                    <==> exists|a: int, b: int|
                    slot_before(d, a, b, i2 as int, jn) && #[trigger] d[a].children[b]
                        == c2) by {
                    if c2 == c {
                        assert(slot_before(d, i2 as int, j2 as int, i2 as int, jn) && d[
                            i2 as int
                        ].children[j2 as int] == c2);
                    } else {
                        if exists|a: int, b: int|
                            slot_before(d, a, b, i2 as int, jn) && #[trigger] d[a].children[b]
                                == c2 {
                            let (a, b) = choose|a: int, b: int|
                                slot_before(d, a, b, i2 as int, jn) && #[trigger] d[
                                    a
                                ].children[b] == c2;
                            assert(!(a == i2 as int && b == j2 as int));
                            assert(slot_before(d, a, b, i2 as int, j2 as int));
                        }
                    }
                }
                assert forall|a: int, b: int, a2: int, b2: int|
                    #![trigger d[a].children[b], d[a2].children[b2]]
                    slot_before(d, a, b, i2 as int, jn) && slot_before(d, a2, b2, i2 as int, jn)
                        && d[a].children[b] == d[a2].children[b2] implies a == a2 && b == b2 by {
                    if a == i2 as int && b == j2 as int && !(a2 == i2 as int && b2 == j2 as int) {
                        assert(slot_before(d, a2, b2, i2 as int, j2 as int));
                        assert(false);
                    }
                    if a2 == i2 as int && b2 == j2 as int && !(a == i2 as int && b == j2 as int) {
                        assert(slot_before(d, a, b, i2 as int, j2 as int));
                        assert(false);
                    }
                }
            }
            j2 = j2 + 1;
        }
        proof {
            assert forall|a: int, b: int|
                slot_before(d, a, b, i2 + 1, 0) implies #[trigger] slot_before(
                d,
                a,
                b,
                i2 as int,
                d[i2 as int].children.len() as int,
            ) by {}
        }
        i2 = i2 + 1;
    }
    proof {
        assert forall|i: int, j: int, k: int, l: int|
            #![trigger d[i].children[j], d[k].children[l]]
            0 <= i < d.len() && 0 <= j < d[i].children.len() && 0 <= k < d.len() && 0 <= l < d[
                k
            ].children.len() && d[i].children[j] == d[k].children[l] implies i == k && j == l by {
            assert(slot_before(d, i, j, n as int, 0));
            assert(slot_before(d, k, l, n as int, 0));
        }
    }
    let mut c: usize = 1;
    while c < n
        invariant
            1 <= c <= n,
            seen@.len() == n,
            forall|c2: int|
                0 <= c2 < n ==> (#[trigger] seen@[c2] <==> exists|a: int, b: int|
                    slot_before(d, a, b, n as int, 0) && #[trigger] d[a].children[b] == c2),
            forall|c2: int| 1 <= c2 < c ==> #[trigger] has_parent_slot(d, c2),
        decreases n - c,
    {
        if !seen[c] {
            proof {
                assert(!has_parent_slot(d, c as int)) by {
                    if has_parent_slot(d, c as int) {
                        let (a, b) = choose|a: int, b: int|
                            0 <= a < d.len() && 0 <= b < d[a].children.len() && #[trigger] d[
                                a
                            ].children[b] == c as int;
                        assert(slot_before(d, a, b, n as int, 0) && d[a].children[b] == c as int);
                        assert(seen@[c as int]);
                    }
                }
                assert(!doc.wf());
            }
            return false;
        }
        proof {
            assert(has_parent_slot(d, c as int)) by {
                let (a, b) = choose|a: int, b: int|
                    slot_before(d, a, b, n as int, 0) && #[trigger] d[a].children[b] == c as int;
                assert(0 <= a < d.len() && 0 <= b < d[a].children.len() && d[a].children[b]
                    == c as int);
            }
        }
        c = c + 1;
    }
    true
}

/// Checks the handle table against the document: every registered node in
/// bounds, no node registered twice.
pub fn check_table(js_state: &EngineContext, doc: &Doc) -> (r: bool)
    ensures
        r == table_wf(js_state@, doc@),
{
    let t = &js_state.handles;
    let mut i: usize = 0;
    while i < t.len()
        invariant
            0 <= i <= t.len(),
            forall|a: int| 0 <= a < i ==> #[trigger] t@[a] < doc@.len(),
            forall|a: int, b: int| 0 <= a < i && 0 <= b < i && a != b ==> t@[a] != t@[b],
        decreases t.len() - i,
    {
        if t[i] >= doc.nodes.len() {
            return false;
        }
        let mut j: usize = 0;
        while j < i
            invariant
                0 <= j <= i < t.len(),
                forall|b: int| 0 <= b < j ==> t@[i as int] != #[trigger] t@[b],
            decreases i - j,
        {
            if t[j] == t[i] {
                assert(!t@.no_duplicates());
                return false;
            }
            j = j + 1;
        }
        i = i + 1;
    }
    true
}

} // verus!
