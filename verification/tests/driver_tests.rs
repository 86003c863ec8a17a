use retumi::dom::{Attr, Doc, Node, NodeData};
use retumi::driver::{check_document, check_table, handle_request, run_requests};
use retumi::handles::EngineContext;
use retumi::protocol::{JsMessage, Payload, WorkerMsg};

fn attr(name: &str, value: &str) -> Attr {
    Attr { name: name.to_string(), value: value.to_string() }
}

fn element(tag: &str, attrs: Vec<Attr>, children: Vec<usize>) -> Node {
    Node { data: NodeData::Element { tag: tag.to_string(), attrs }, children }
}

fn root(children: Vec<usize>) -> Node {
    Node { data: NodeData::Other, children }
}

/// The document `<div id="x"></div>` under a root node.
fn doc_div_x() -> Doc {
    Doc { nodes: vec![root(vec![1]), element("div", vec![attr("id", "x")], vec![])] }
}

fn get_attr_of(doc: &Doc, n: usize, name: &str) -> Option<String> {
    match &doc.nodes[n].data {
        NodeData::Element { attrs, .. } => {
            attrs.iter().find(|a| a.name == name).map(|a| a.value.clone())
        }
        _ => None,
    }
}

#[test]
fn check_document_accepts_well_formed() {
    assert!(check_document(&doc_div_x()));
}

#[test]
fn check_document_rejects_empty_and_bad_children() {
    assert!(!check_document(&Doc { nodes: vec![] }));
    assert!(!check_document(&Doc { nodes: vec![root(vec![0])] }));
    assert!(!check_document(&Doc { nodes: vec![root(vec![2])] }));
}

#[test]
fn check_document_rejects_shared_children() {
    // A node listed twice under one parent, and a node with two parents:
    // neither arena is a tree.
    assert!(!check_document(&Doc {
        nodes: vec![root(vec![1, 1]), element("div", vec![], vec![])],
    }));
    assert!(!check_document(&Doc {
        nodes: vec![
            root(vec![1, 2]),
            element("div", vec![], vec![2]),
            element("p", vec![], vec![]),
        ],
    }));
    assert!(check_document(&Doc {
        nodes: vec![
            root(vec![1, 2]),
            element("div", vec![], vec![]),
            element("p", vec![], vec![]),
        ],
    }));
}

#[test]
fn check_document_rejects_orphan_nodes() {
    // A node no child slot reaches is not part of the tree.
    assert!(!check_document(&Doc {
        nodes: vec![root(vec![]), element("div", vec![], vec![])],
    }));
    assert!(check_document(&Doc { nodes: vec![root(vec![])] }));
}

#[test]
fn check_table_rejects_out_of_bounds_and_duplicates() {
    let doc = doc_div_x();
    assert!(check_table(&EngineContext::new(), &doc));
    assert!(!check_table(&EngineContext { handles: vec![2] }, &doc));
    assert!(!check_table(&EngineContext { handles: vec![1, 1] }, &doc));
    assert!(check_table(&EngineContext { handles: vec![0, 1] }, &doc));
}

#[test]
fn print_replies_null() {
    let mut doc = doc_div_x();
    let mut ctx = EngineContext::new();
    let reply = handle_request(&mut doc, &mut ctx, &JsMessage::Print("hi".to_string()));
    assert_eq!(reply, WorkerMsg::Response(Payload::Null));
    assert_eq!(doc, doc_div_x());
}

#[test]
fn get_element_by_id_request_issues_handle() {
    let mut doc = doc_div_x();
    let mut ctx = EngineContext::new();
    let reply = handle_request(&mut doc, &mut ctx, &JsMessage::GetElementById("x".to_string()));
    assert_eq!(reply, WorkerMsg::Response(Payload::Num(0)));
    assert_eq!(ctx.get_element(0), Some(1));
}

#[test]
fn get_element_by_id_request_same_handle_twice() {
    let mut doc = doc_div_x();
    let mut ctx = EngineContext::new();
    let first = handle_request(&mut doc, &mut ctx, &JsMessage::GetElementById("x".to_string()));
    let second = handle_request(&mut doc, &mut ctx, &JsMessage::GetElementById("x".to_string()));
    assert_eq!(first, second);
    assert_eq!(ctx.handles.len(), 1);
}

#[test]
fn missing_id_replies_null_not_error() {
    let mut doc = doc_div_x();
    let mut ctx = EngineContext::new();
    let reply = handle_request(
        &mut doc,
        &mut ctx,
        &JsMessage::GetElementById("missing".to_string()),
    );
    assert_eq!(reply, WorkerMsg::Response(Payload::Null));
    assert_eq!(ctx.handles.len(), 0);
}

#[test]
fn query_selector_request_handles_in_document_order() {
    let mut doc = Doc {
        nodes: vec![
            root(vec![1]),
            element("div", vec![], vec![2, 3, 4]),
            element("p", vec![], vec![]),
            element("span", vec![], vec![]),
            element("p", vec![], vec![]),
        ],
    };
    let mut ctx = EngineContext::new();
    let reply = handle_request(&mut doc, &mut ctx, &JsMessage::QuerySelector("p".to_string()));
    assert_eq!(reply, WorkerMsg::Response(Payload::List(vec![0, 1])));
    assert_eq!(ctx.get_element(0), Some(2));
    assert_eq!(ctx.get_element(1), Some(4));
    // Repeating the query reuses the same handles in the same order.
    let again = handle_request(&mut doc, &mut ctx, &JsMessage::QuerySelector("p".to_string()));
    assert_eq!(again, WorkerMsg::Response(Payload::List(vec![0, 1])));
    assert_eq!(ctx.handles.len(), 2);
}

#[test]
fn unknown_handle_get_attribute_is_error() {
    let mut doc = doc_div_x();
    let mut ctx = EngineContext::new();
    let before = doc.clone();
    let reply = handle_request(
        &mut doc,
        &mut ctx,
        &JsMessage::GetAttribute(3, "id".to_string()),
    );
    assert_eq!(reply, WorkerMsg::Error(Payload::Text("unrecognized handle".to_string())));
    assert_eq!(doc, before);
    assert_eq!(ctx.handles.len(), 0);
}

#[test]
fn unknown_handle_set_attribute_is_error() {
    let mut doc = doc_div_x();
    let mut ctx = EngineContext::new();
    let before = doc.clone();
    let reply = handle_request(
        &mut doc,
        &mut ctx,
        &JsMessage::SetAttribute(0, "id".to_string(), "y".to_string()),
    );
    assert_eq!(reply, WorkerMsg::Error(Payload::Text("unrecognized handle".to_string())));
    assert_eq!(doc, before);
}

#[test]
fn unknown_handle_set_text_is_error() {
    let mut doc = doc_div_x();
    let mut ctx = EngineContext::new();
    let before = doc.clone();
    let reply = handle_request(&mut doc, &mut ctx, &JsMessage::SetText(7, "y".to_string()));
    assert_eq!(reply, WorkerMsg::Error(Payload::Text("unrecognized handle".to_string())));
    assert_eq!(doc, before);
}

#[test]
fn get_attribute_request_reads_value_and_absence() {
    let mut doc = doc_div_x();
    let mut ctx = EngineContext::new();
    handle_request(&mut doc, &mut ctx, &JsMessage::GetElementById("x".to_string()));
    let found = handle_request(&mut doc, &mut ctx, &JsMessage::GetAttribute(0, "id".to_string()));
    assert_eq!(found, WorkerMsg::Response(Payload::Text("x".to_string())));
    let absent = handle_request(
        &mut doc,
        &mut ctx,
        &JsMessage::GetAttribute(0, "class".to_string()),
    );
    assert_eq!(absent, WorkerMsg::Response(Payload::Null));
}

#[test]
fn set_attribute_scenario_overwrites_class() {
    // document <div id="x" class="old"></div>: an existing class attribute
    // is overwritten in place.
    let mut doc = Doc {
        nodes: vec![root(vec![1]), element(
            "div",
            vec![attr("id", "x"), attr("class", "old")],
            vec![],
        )],
    };
    let mut ctx = EngineContext::new();
    let requests = vec![
        JsMessage::GetElementById("x".to_string()),
        JsMessage::SetAttribute(0, "class".to_string(), "y".to_string()),
        JsMessage::Done,
    ];
    let (replies, prints, done) = run_requests(&mut doc, &mut ctx, &requests);
    assert_eq!(
        replies,
        vec![
            WorkerMsg::Response(Payload::Num(0)),
            WorkerMsg::Response(Payload::Null),
        ]
    );
    assert_eq!(prints, Vec::<String>::new());
    assert!(done);
    assert_eq!(get_attr_of(&doc, 1, "class"), Some("y".to_string()));
}

#[test]
fn set_attribute_scenario_creates_class() {
    // document <div id="x"></div>, then the requests that the script
    // document.getElementById("x").setAttribute("class","y") issues: after
    // them the element's class attribute equals "y", created on the spot.
    let mut doc = doc_div_x();
    let mut ctx = EngineContext::new();
    let requests = vec![
        JsMessage::GetElementById("x".to_string()),
        JsMessage::SetAttribute(0, "class".to_string(), "y".to_string()),
        JsMessage::Done,
    ];
    let (replies, _, done) = run_requests(&mut doc, &mut ctx, &requests);
    assert_eq!(
        replies,
        vec![
            WorkerMsg::Response(Payload::Num(0)),
            WorkerMsg::Response(Payload::Null),
        ]
    );
    assert!(done);
    assert_eq!(get_attr_of(&doc, 1, "class"), Some("y".to_string()));
    assert_eq!(get_attr_of(&doc, 1, "id"), Some("x".to_string()));
}

#[test]
fn missing_element_scenario_yields_null() {
    // A script referencing document.getElementById("missing") gets null,
    // not an error.
    let mut doc = doc_div_x();
    let mut ctx = EngineContext::new();
    let requests = vec![JsMessage::GetElementById("missing".to_string()), JsMessage::Done];
    let (replies, _, done) = run_requests(&mut doc, &mut ctx, &requests);
    assert_eq!(replies, vec![WorkerMsg::Response(Payload::Null)]);
    assert!(done);
}

#[test]
fn one_reply_per_request_without_done() {
    let mut doc = doc_div_x();
    let mut ctx = EngineContext::new();
    let requests = vec![
        JsMessage::Print("a".to_string()),
        JsMessage::GetElementById("x".to_string()),
        JsMessage::GetAttribute(0, "id".to_string()),
        JsMessage::QuerySelector("div".to_string()),
    ];
    let (replies, prints, done) = run_requests(&mut doc, &mut ctx, &requests);
    assert_eq!(replies.len(), requests.len());
    assert_eq!(prints, vec!["a".to_string()]);
    assert!(!done);
}

#[test]
fn requests_after_done_are_not_serviced() {
    let mut doc = doc_div_x();
    let mut ctx = EngineContext::new();
    let requests = vec![
        JsMessage::Print("before".to_string()),
        JsMessage::Done,
        JsMessage::Print("after".to_string()),
    ];
    let (replies, prints, done) = run_requests(&mut doc, &mut ctx, &requests);
    assert_eq!(replies.len(), 1);
    assert_eq!(prints, vec!["before".to_string()]);
    assert!(done);
}

#[test]
fn runs_are_deterministic() {
    let requests = vec![
        JsMessage::GetElementById("x".to_string()),
        JsMessage::SetAttribute(0, "id".to_string(), "z".to_string()),
        JsMessage::Print("log line".to_string()),
        JsMessage::QuerySelector("div".to_string()),
        JsMessage::Done,
    ];
    let mut doc1 = doc_div_x();
    let mut ctx1 = EngineContext::new();
    let out1 = run_requests(&mut doc1, &mut ctx1, &requests);
    let mut doc2 = doc_div_x();
    let mut ctx2 = EngineContext::new();
    let out2 = run_requests(&mut doc2, &mut ctx2, &requests);
    assert_eq!(out1, out2);
    assert_eq!(doc1, doc2);
    assert_eq!(ctx1, ctx2);
}

#[test]
fn handles_stay_valid_across_script_bodies() {
    // One handle table serves several script bodies of one page: a handle
    // issued by the first body still resolves in the second.
    let mut doc = doc_div_x();
    let mut ctx = EngineContext::new();
    let first = vec![JsMessage::GetElementById("x".to_string()), JsMessage::Done];
    run_requests(&mut doc, &mut ctx, &first);
    let second = vec![
        JsMessage::SetAttribute(0, "id".to_string(), "renamed".to_string()),
        JsMessage::Done,
    ];
    let (replies, _, _) = run_requests(&mut doc, &mut ctx, &second);
    assert_eq!(replies, vec![WorkerMsg::Response(Payload::Null)]);
    assert_eq!(get_attr_of(&doc, 1, "id"), Some("renamed".to_string()));
}

#[test]
fn print_lines_come_out_in_order() {
    let mut doc = doc_div_x();
    let mut ctx = EngineContext::new();
    let requests = vec![
        JsMessage::Print("one".to_string()),
        JsMessage::GetElementById("x".to_string()),
        JsMessage::Print("two".to_string()),
        JsMessage::Print("three".to_string()),
        JsMessage::Done,
    ];
    let (_, prints, _) = run_requests(&mut doc, &mut ctx, &requests);
    assert_eq!(prints, vec!["one".to_string(), "two".to_string(), "three".to_string()]);
}

#[test]
fn written_attribute_reads_back() {
    let mut doc = Doc {
        nodes: vec![root(vec![1]), element(
            "div",
            vec![attr("id", "x"), attr("class", "old")],
            vec![],
        )],
    };
    let mut ctx = EngineContext::new();
    let requests = vec![
        JsMessage::GetElementById("x".to_string()),
        JsMessage::SetAttribute(0, "class".to_string(), "fresh".to_string()),
        JsMessage::GetAttribute(0, "class".to_string()),
        JsMessage::Done,
    ];
    let (replies, _, _) = run_requests(&mut doc, &mut ctx, &requests);
    assert_eq!(
        replies,
        vec![
            WorkerMsg::Response(Payload::Num(0)),
            WorkerMsg::Response(Payload::Null),
            WorkerMsg::Response(Payload::Text("fresh".to_string())),
        ]
    );
}

#[test]
fn set_text_request_rewrites_text_children() {
    let mut doc = Doc {
        nodes: vec![
            root(vec![1]),
            element("div", vec![attr("id", "x")], vec![2]),
            Node { data: NodeData::Text { contents: "before".to_string() }, children: vec![] },
        ],
    };
    let mut ctx = EngineContext::new();
    let requests = vec![
        JsMessage::GetElementById("x".to_string()),
        JsMessage::SetText(0, "after".to_string()),
        JsMessage::Done,
    ];
    let (replies, _, _) = run_requests(&mut doc, &mut ctx, &requests);
    assert_eq!(
        replies,
        vec![WorkerMsg::Response(Payload::Num(0)), WorkerMsg::Response(Payload::Null)]
    );
    assert_eq!(
        doc.nodes[2].data,
        NodeData::Text { contents: "after".to_string() }
    );
}
