use retumi::dom::{
    contents, extract_scripts, get_attribute, get_element_by_id, query_selector,
    scripts_extractable, set_attribute, set_text, Attr, Doc, Node, NodeData,
};

fn attr(name: &str, value: &str) -> Attr {
    Attr { name: name.to_string(), value: value.to_string() }
}

fn element(tag: &str, attrs: Vec<Attr>, children: Vec<usize>) -> Node {
    Node { data: NodeData::Element { tag: tag.to_string(), attrs }, children }
}

fn text(contents: &str) -> Node {
    Node { data: NodeData::Text { contents: contents.to_string() }, children: vec![] }
}

fn root(children: Vec<usize>) -> Node {
    Node { data: NodeData::Other, children }
}

/// The document `<div id="x"></div>` under a root node.
fn doc_div_x() -> Doc {
    Doc { nodes: vec![root(vec![1]), element("div", vec![attr("id", "x")], vec![])] }
}

#[test]
fn get_element_by_id_finds_first_match() {
    let doc = doc_div_x();
    assert_eq!(get_element_by_id(&doc, &"x".to_string()), Some(1));
}

#[test]
fn get_element_by_id_missing_is_none() {
    let doc = doc_div_x();
    assert_eq!(get_element_by_id(&doc, &"missing".to_string()), None);
}

#[test]
fn get_element_by_id_is_preorder_first() {
    // Two elements with the same id: the pre-order first one wins.
    let doc = Doc {
        nodes: vec![
            root(vec![1, 3]),
            element("div", vec![attr("id", "dup")], vec![2]),
            element("span", vec![attr("id", "dup")], vec![]),
            element("p", vec![attr("id", "dup")], vec![]),
        ],
    };
    assert_eq!(get_element_by_id(&doc, &"dup".to_string()), Some(1));
}

#[test]
fn query_selector_preorder_order() {
    // The tree [div, p, span, p]: querying "p" yields the two p nodes in
    // left-to-right document order.
    let doc = Doc {
        nodes: vec![
            root(vec![1]),
            element("div", vec![], vec![2, 3, 4]),
            element("p", vec![], vec![]),
            element("span", vec![], vec![]),
            element("p", vec![], vec![]),
        ],
    };
    assert_eq!(query_selector(&doc, &"p".to_string()), vec![2, 4]);
    assert_eq!(query_selector(&doc, &"span".to_string()), vec![3]);
    assert_eq!(query_selector(&doc, &"table".to_string()), Vec::<usize>::new());
}

#[test]
fn query_selector_nested_preorder() {
    // A p nested under another p comes right after its parent, before a
    // later sibling.
    let doc = Doc {
        nodes: vec![
            root(vec![1, 3]),
            element("p", vec![], vec![2]),
            element("p", vec![], vec![]),
            element("p", vec![], vec![]),
        ],
    };
    assert_eq!(query_selector(&doc, &"p".to_string()), vec![1, 2, 3]);
}

#[test]
fn get_attribute_reads_first_match() {
    let doc = Doc {
        nodes: vec![
            root(vec![1]),
            element("div", vec![attr("class", "a"), attr("class", "b")], vec![]),
        ],
    };
    assert_eq!(get_attribute(&doc, 1, &"class".to_string()), Some("a".to_string()));
    assert_eq!(get_attribute(&doc, 1, &"id".to_string()), None);
    assert_eq!(get_attribute(&doc, 0, &"class".to_string()), None);
}

#[test]
fn set_attribute_overwrites_existing() {
    let mut doc = Doc {
        nodes: vec![root(vec![1]), element("div", vec![attr("class", "old")], vec![])],
    };
    set_attribute(&mut doc, 1, &"class".to_string(), &"new".to_string());
    assert_eq!(get_attribute(&doc, 1, &"class".to_string()), Some("new".to_string()));
}

#[test]
fn set_attribute_overwrites_only_first_match() {
    let mut doc = Doc {
        nodes: vec![
            root(vec![1]),
            element("div", vec![attr("class", "a"), attr("class", "b")], vec![]),
        ],
    };
    set_attribute(&mut doc, 1, &"class".to_string(), &"new".to_string());
    match &doc.nodes[1].data {
        NodeData::Element { attrs, .. } => {
            assert_eq!(attrs[0].value, "new");
            assert_eq!(attrs[1].value, "b");
        }
        _ => panic!("node 1 must stay an element"),
    }
}

#[test]
fn set_attribute_missing_name_creates_attribute() {
    // A missing attribute name creates the attribute at the end of the list.
    let mut doc = doc_div_x();
    set_attribute(&mut doc, 1, &"class".to_string(), &"y".to_string());
    assert_eq!(get_attribute(&doc, 1, &"class".to_string()), Some("y".to_string()));
    match &doc.nodes[1].data {
        NodeData::Element { attrs, .. } => {
            assert_eq!(attrs.len(), 2);
            assert_eq!(attrs[0], attr("id", "x"));
            assert_eq!(attrs[1], attr("class", "y"));
        }
        _ => panic!("node 1 must stay an element"),
    }
}

#[test]
fn set_attribute_non_element_is_noop() {
    let mut doc = Doc { nodes: vec![root(vec![1]), text("hello")] };
    let before = doc.clone();
    set_attribute(&mut doc, 1, &"class".to_string(), &"y".to_string());
    assert_eq!(doc, before);
}

#[test]
fn set_text_overwrites_every_direct_text_child() {
    let mut doc = Doc {
        nodes: vec![root(vec![1]), element("div", vec![], vec![2, 3, 4]), text("one"), element(
            "span",
            vec![],
            vec![],
        ), text("two")],
    };
    set_text(&mut doc, 1, &"new".to_string());
    assert_eq!(doc.nodes[2], text("new"));
    assert_eq!(doc.nodes[3], element("span", vec![], vec![]));
    assert_eq!(doc.nodes[4], text("new"));
}

#[test]
fn set_text_on_non_element_is_noop() {
    let mut doc = Doc { nodes: vec![root(vec![1]), text("keep")] };
    let before = doc.clone();
    set_text(&mut doc, 1, &"new".to_string());
    assert_eq!(doc, before);
    let mut doc2 = Doc { nodes: vec![root(vec![1]), text("keep")] };
    set_text(&mut doc2, 0, &"new".to_string());
    assert_eq!(doc2.nodes[1], text("keep"));
}

#[test]
fn set_text_does_not_reach_grandchildren() {
    let mut doc = Doc {
        nodes: vec![root(vec![1]), element("div", vec![], vec![2]), element(
            "span",
            vec![],
            vec![3],
        ), text("deep")],
    };
    set_text(&mut doc, 1, &"new".to_string());
    assert_eq!(doc.nodes[3], text("deep"));
}

#[test]
fn extract_scripts_in_document_order() {
    let doc = Doc {
        nodes: vec![
            root(vec![1]),
            element("html", vec![], vec![2, 4]),
            element("script", vec![], vec![3]),
            text("first();"),
            element("script", vec![], vec![5]),
            text("second();"),
        ],
    };
    let scripts = extract_scripts(&doc);
    assert_eq!(scripts, vec![2, 4]);
    assert!(scripts_extractable(&doc));
    assert_eq!(contents(&doc, 2), "first();");
    assert_eq!(contents(&doc, 4), "second();");
}

#[test]
fn contents_of_childless_script_is_empty() {
    let doc = Doc { nodes: vec![root(vec![1]), element("script", vec![], vec![])] };
    assert!(scripts_extractable(&doc));
    assert_eq!(contents(&doc, 1), "");
}

#[test]
fn scripts_extractable_rejects_non_text_first_child() {
    let doc = Doc {
        nodes: vec![root(vec![1]), element("script", vec![], vec![2]), element(
            "div",
            vec![],
            vec![],
        )],
    };
    assert!(!scripts_extractable(&doc));
}
