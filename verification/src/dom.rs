//! The document model: a tree of nodes held in an arena, where a node is
//! named by its index. Children always carry larger indices than their
//! parent, which both rules out cycles and gives every traversal a
//! termination measure. Node identity is index equality, mirroring the
//! by-reference identity of the shared tree the model stands for.

use vstd::prelude::*;
use vstd::seq_lib::lemma_no_dup_in_concat;

verus! {

/// One name/value attribute pair of an element.
#[derive(Debug, Clone, PartialEq)]
pub struct Attr {
    pub name: String,
    pub value: String,
}

/// Mathematical image of an attribute: both sides as character sequences.
#[verifier::ext_equal]
pub ghost struct AttrView {
    pub name: Seq<char>,
    pub value: Seq<char>,
}

impl View for Attr {
    type V = AttrView;

    open spec fn view(&self) -> AttrView {
        AttrView { name: self.name@, value: self.value@ }
    }
}

/// What a node is: an element with a tag and attributes, a text node with
/// its contents, or anything else (comments, the document root, ...).
#[derive(Debug, Clone, PartialEq)]
pub enum NodeData {
    Element { tag: String, attrs: Vec<Attr> },
    Text { contents: String },
    Other,
}

/// Mathematical image of `NodeData`.
#[verifier::ext_equal]
pub ghost enum NodeDataView {
    Element { tag: Seq<char>, attrs: Seq<AttrView> },
    Text { contents: Seq<char> },
    Other,
}

impl View for NodeData {
    type V = NodeDataView;

    open spec fn view(&self) -> NodeDataView {
        match self {
            NodeData::Element { tag, attrs } => NodeDataView::Element {
                tag: tag@,
                attrs: attrs@.map_values(|a: Attr| a@),
            },
            NodeData::Text { contents } => NodeDataView::Text { contents: contents@ },
            NodeData::Other => NodeDataView::Other,
        }
    }
}

/// One node of the document: its data and the arena indices of its children,
/// in document order.
#[derive(Debug, Clone, PartialEq)]
pub struct Node {
    pub data: NodeData,
    pub children: Vec<usize>,
}

/// Mathematical image of a node.
#[verifier::ext_equal]
pub ghost struct NodeView {
    pub data: NodeDataView,
    pub children: Seq<usize>,
}

impl View for Node {
    type V = NodeView;

    open spec fn view(&self) -> NodeView {
        NodeView { data: self.data@, children: self.children@ }
    }
}

/// A document: an arena of nodes whose entry 0 is the root. Every child
/// index is strictly larger than its parent's index and in bounds.
#[derive(Debug, Clone, PartialEq)]
pub struct Doc {
    pub nodes: Vec<Node>,
}

impl View for Doc {
    type V = Seq<NodeView>;

    open spec fn view(&self) -> Seq<NodeView> {
        self.nodes@.map_values(|n: Node| n@)
    }
}

/// Whether some child slot of the arena holds the index `c`.
pub open spec fn has_parent_slot(d: Seq<NodeView>, c: int) -> bool {
    exists|a: int, b: int|
        0 <= a < d.len() && 0 <= b < d[a].children.len() && #[trigger] d[a].children[b] == c
}

/// Well-formedness of a document arena: nonempty; each node's children lie
/// strictly between the node's own index and the arena's length; no node is
/// the child of two parents (nor listed twice under one parent); and every
/// node but entry 0 is someone's child. Together: the arena is a tree rooted
/// at entry 0.
pub open spec fn doc_wf(d: Seq<NodeView>) -> bool {
    &&& d.len() >= 1
    &&& forall|i: int, j: int|
        0 <= i < d.len() && 0 <= j < d[i].children.len() ==> i < #[trigger] d[i].children[j]
            < d.len()
    &&& forall|i: int, j: int, k: int, l: int|
        #![trigger d[i].children[j], d[k].children[l]]
        0 <= i < d.len() && 0 <= j < d[i].children.len() && 0 <= k < d.len() && 0 <= l
            < d[k].children.len() && d[i].children[j] == d[k].children[l] ==> i == k && j == l
    &&& forall|c: int| 1 <= c < d.len() ==> #[trigger] has_parent_slot(d, c)
}

/// Two arenas of the same shape (same length, same children everywhere) are
/// equally well-formed: well-formedness never looks at a node's data.
pub proof fn lemma_wf_same_children(d0: Seq<NodeView>, d1: Seq<NodeView>)
    requires
        doc_wf(d0),
        d1.len() == d0.len(),
        forall|i: int| 0 <= i < d0.len() ==> #[trigger] d1[i].children == d0[i].children,
    ensures
        doc_wf(d1),
{
    assert forall|i: int, j: int|
        0 <= i < d1.len() && 0 <= j < d1[i].children.len() implies i < #[trigger] d1[i].children[j]
        < d1.len() by {
        assert(d1[i].children == d0[i].children);
    }
    assert forall|i: int, j: int, k: int, l: int|
        #![trigger d1[i].children[j], d1[k].children[l]]
        0 <= i < d1.len() && 0 <= j < d1[i].children.len() && 0 <= k < d1.len() && 0 <= l
            < d1[k].children.len() && d1[i].children[j] == d1[k].children[l] implies i == k && j
        == l by {
        assert(d1[i].children == d0[i].children);
        assert(d1[k].children == d0[k].children);
        assert(d0[i].children[j] == d0[k].children[l]);
    }
    assert forall|c: int| 1 <= c < d1.len() implies #[trigger] has_parent_slot(d1, c) by {
        assert(has_parent_slot(d0, c));
        let (a, b) = choose|a: int, b: int|
            0 <= a < d0.len() && 0 <= b < d0[a].children.len() && #[trigger] d0[a].children[b]
                == c;
        assert(d1[a].children == d0[a].children);
        assert(d1[a].children[b] == c);
    }
}

impl Doc {
    /// Well-formedness, stated of the document's view.
    pub open spec fn wf(&self) -> bool {
        doc_wf(self@)
    }
}

/// Index of the first attribute at or after position `j` named `name`.
pub open spec fn find_attr_from(attrs: Seq<AttrView>, j: int, name: Seq<char>) -> Option<int>
    decreases attrs.len() - j,
{
    if j < 0 || j >= attrs.len() {
        None
    } else if attrs[j].name == name {
        Some(j)
    } else {
        find_attr_from(attrs, j + 1, name)
    }
}

/// Index of the first attribute named `name`, if any.
pub open spec fn find_attr(attrs: Seq<AttrView>, name: Seq<char>) -> Option<int> {
    find_attr_from(attrs, 0, name)
}

/// Whether the node is an element carrying an attribute named `id` with the
/// given value (any such attribute, not only the first one named `id`).
pub open spec fn node_has_id(n: NodeView, id: Seq<char>) -> bool {
    match n.data {
        NodeDataView::Element { attrs, .. } => exists|k: int|
            0 <= k < attrs.len() && (#[trigger] attrs[k]).name == "id"@ && attrs[k].value == id,
        _ => false,
    }
}

/// Whether the node is an element with the given tag name.
pub open spec fn node_has_tag(n: NodeView, tag: Seq<char>) -> bool {
    match n.data {
        NodeDataView::Element { tag: t, .. } => t == tag,
        _ => false,
    }
}

/// Pre-order search of the subtree rooted at `idx` for the first element
/// whose `id` attribute equals `id`.
pub open spec fn find_by_id_from(d: Seq<NodeView>, idx: usize, id: Seq<char>) -> Option<usize>
    decreases d.len() - idx, 1int, 0int,
{
    if idx >= d.len() {
        None
    } else if node_has_id(d[idx as int], id) {
        Some(idx)
    } else {
        find_by_id_in_children(d, d[idx as int].children, 0, idx, id)
    }
}

/// Continues the search of `find_by_id_from` over the children `cs[j..]` of
/// the node `parent`.
pub open spec fn find_by_id_in_children(
    d: Seq<NodeView>,
    cs: Seq<usize>,
    j: int,
    parent: usize,
    id: Seq<char>,
) -> Option<usize>
    decreases d.len() - parent, 0int, cs.len() - j,
{
    if j < 0 || j >= cs.len() {
        None
    } else if !(parent < cs[j] < d.len()) {
        find_by_id_in_children(d, cs, j + 1, parent, id)
    } else {
        match find_by_id_from(d, cs[j], id) {
            Some(h) => Some(h),
            None => find_by_id_in_children(d, cs, j + 1, parent, id),
        }
    }
}

/// The first element of the whole document carrying an `id` attribute equal
/// to `id`, in pre-order.
pub open spec fn find_by_id(d: Seq<NodeView>, id: Seq<char>) -> Option<usize> {
    find_by_id_from(d, 0, id)
}

/// The indices of the subtree rooted at `idx`, in pre-order.
pub open spec fn preorder_from(d: Seq<NodeView>, idx: usize) -> Seq<usize>
    decreases d.len() - idx, 1int, 0int,
{
    if idx >= d.len() {
        Seq::empty()
    } else {
        seq![idx] + preorder_children(d, d[idx as int].children, 0, idx)
    }
}

/// The pre-order listing of the subtrees rooted at the children `cs[j..]` of
/// the node `parent`.
pub open spec fn preorder_children(d: Seq<NodeView>, cs: Seq<usize>, j: int, parent: usize) -> Seq<
    usize,
>
    decreases d.len() - parent, 0int, cs.len() - j,
{
    if j < 0 || j >= cs.len() {
        Seq::empty()
    } else if !(parent < cs[j] < d.len()) {
        preorder_children(d, cs, j + 1, parent)
    } else {
        preorder_from(d, cs[j]) + preorder_children(d, cs, j + 1, parent)
    }
}

/// The predicate "node `i` of `d` is an element tagged `tag`", as a function
/// value, so that every statement filters by one and the same predicate.
pub open spec fn tag_pred(d: Seq<NodeView>, tag: Seq<char>) -> spec_fn(usize) -> bool {
    |i: usize| node_has_tag(d[i as int], tag)
}

/// The elements of the subtree rooted at `idx` whose tag equals `tag`, in
/// pre-order: exactly the pre-order listing filtered by the tag.
pub open spec fn tags_from(d: Seq<NodeView>, idx: usize, tag: Seq<char>) -> Seq<usize> {
    preorder_from(d, idx).filter(tag_pred(d, tag))
}

/// The elements of the whole document whose tag equals `tag`, in document
/// (pre-order) order.
pub open spec fn elements_by_tag(d: Seq<NodeView>, tag: Seq<char>) -> Seq<usize> {
    tags_from(d, 0, tag)
}

/// Every index a subtree traversal lists lies after its root and inside the
/// arena.
proof fn lemma_preorder_from_bounds(d: Seq<NodeView>, idx: usize)
    ensures
        forall|p: int|
            0 <= p < preorder_from(d, idx).len() ==> idx <= #[trigger] preorder_from(d, idx)[p]
                < d.len(),
    decreases d.len() - idx, 1int, 0int,
{
    if idx < d.len() {
        let cs = d[idx as int].children;
        lemma_preorder_children_bounds(d, cs, 0, idx);
        let pc = preorder_children(d, cs, 0, idx);
        assert forall|p: int| 0 <= p < preorder_from(d, idx).len() implies idx
            <= #[trigger] preorder_from(d, idx)[p] < d.len() by {
            if p > 0 {
                assert(preorder_from(d, idx)[p] == pc[p - 1]);
            }
        }
    }
}

/// Every index listed under the children `cs[j..]` of `parent` lies after
/// `parent` and inside the arena.
proof fn lemma_preorder_children_bounds(d: Seq<NodeView>, cs: Seq<usize>, j: int, parent: usize)
    ensures
        forall|p: int|
            0 <= p < preorder_children(d, cs, j, parent).len() ==> parent
                < #[trigger] preorder_children(d, cs, j, parent)[p] < d.len(),
    decreases d.len() - parent, 0int, cs.len() - j,
{
    if j < 0 || j >= cs.len() {
    } else if !(parent < cs[j] < d.len()) {
        lemma_preorder_children_bounds(d, cs, j + 1, parent);
    } else {
        lemma_preorder_from_bounds(d, cs[j]);
        lemma_preorder_children_bounds(d, cs, j + 1, parent);
        let a = preorder_from(d, cs[j]);
        let b = preorder_children(d, cs, j + 1, parent);
        assert forall|p: int| 0 <= p < preorder_children(d, cs, j, parent).len() implies parent
            < #[trigger] preorder_children(d, cs, j, parent)[p] < d.len() by {
            if p < a.len() {
                assert(preorder_children(d, cs, j, parent)[p] == a[p]);
            } else {
                assert(preorder_children(d, cs, j, parent)[p] == b[p - a.len()]);
            }
        }
    }
}

/// A listed index other than the subtree's root has its parent slot inside
/// the same subtree listing.
proof fn lemma_preorder_member_parent(d: Seq<NodeView>, idx: usize, x: usize)
    requires
        preorder_from(d, idx).contains(x),
        x != idx,
    ensures
        exists|a: usize, b: int|
            #![trigger d[a as int].children[b]]
            preorder_from(d, idx).contains(a) && 0 <= b < d[a as int].children.len() && d[
                a as int
            ].children[b] == x,
    decreases d.len() - idx, 1int, 0int,
{
    let pr = preorder_from(d, idx);
    let p = choose|p: int| 0 <= p < pr.len() && pr[p] == x;
    assert(idx < d.len());
    let cs = d[idx as int].children;
    let pc = preorder_children(d, cs, 0, idx);
    assert(p > 0);
    assert(pc[p - 1] == x);
    assert(pc.contains(x)) by {
        assert(pc[p - 1] == x);
    }
    lemma_preorder_children_member_parent(d, cs, 0, idx, x);
    if exists|j2: int| 0 <= j2 < cs.len() && parent_guard(d, cs, j2) && cs[j2] == x {
        let j2 = choose|j2: int| 0 <= j2 < cs.len() && parent_guard(d, cs, j2) && cs[j2] == x;
        assert(pr.contains(idx)) by {
            assert(pr[0] == idx);
        }
        assert(pr.contains(idx) && 0 <= j2 < d[idx as int].children.len() && d[
            idx as int
        ].children[j2] == x);
    } else {
        let (a, b) = choose|a: usize, b: int|
            pc.contains(a) && 0 <= b < d[a as int].children.len() && #[trigger] d[
                a as int
            ].children[b] == x;
        let q = choose|q: int| 0 <= q < pc.len() && pc[q] == a;
        assert(pr.contains(a)) by {
            assert(pr[q + 1] == a);
        }
        assert(pr.contains(a) && 0 <= b < d[a as int].children.len() && d[a as int].children[b]
            == x);
    }
}

/// The listed root at position `j2` lies inside the arena: the part of the
/// traversal guard the sibling case of the next lemma needs.
spec fn parent_guard(d: Seq<NodeView>, cs: Seq<usize>, j2: int) -> bool {
    cs[j2] < d.len()
}

/// A listed index is one of the listed roots `cs[j..]`, or has its parent
/// slot inside the listing.
proof fn lemma_preorder_children_member_parent(
    d: Seq<NodeView>,
    cs: Seq<usize>,
    j: int,
    parent: usize,
    x: usize,
)
    requires
        preorder_children(d, cs, j, parent).contains(x),
    ensures
        (exists|j2: int| j <= j2 < cs.len() && parent_guard(d, cs, j2) && cs[j2] == x) || (exists|
            a: usize,
            b: int,
        |
            #![trigger d[a as int].children[b]]
            preorder_children(d, cs, j, parent).contains(a) && 0 <= b < d[
                a as int
            ].children.len() && d[a as int].children[b] == x),
    decreases d.len() - parent, 0int, cs.len() - j,
{
    let pc = preorder_children(d, cs, j, parent);
    if j < 0 || j >= cs.len() {
        assert(false);
    } else if !(parent < cs[j] < d.len()) {
        lemma_preorder_children_member_parent(d, cs, j + 1, parent, x);
    } else {
        let a1 = preorder_from(d, cs[j]);
        let b1 = preorder_children(d, cs, j + 1, parent);
        let p = choose|p: int| 0 <= p < pc.len() && pc[p] == x;
        if p < a1.len() {
            assert(a1[p] == x);
            assert(a1.contains(x)) by {
                assert(a1[p] == x);
            }
            if x == cs[j] {
                assert(j <= j < cs.len() && parent_guard(d, cs, j) && cs[j] == x);
            } else {
                lemma_preorder_member_parent(d, cs[j], x);
                let (a, b) = choose|a: usize, b: int|
                    a1.contains(a) && 0 <= b < d[a as int].children.len() && #[trigger] d[
                        a as int
                    ].children[b] == x;
                let q = choose|q: int| 0 <= q < a1.len() && a1[q] == a;
                assert(pc.contains(a)) by {
                    assert(pc[q] == a1[q]);
                }
                assert(pc.contains(a) && 0 <= b < d[a as int].children.len() && d[
                    a as int
                ].children[b] == x);
            }
        } else {
            assert(b1[p - a1.len()] == x);
            assert(b1.contains(x)) by {
                assert(b1[p - a1.len()] == x);
            }
            lemma_preorder_children_member_parent(d, cs, j + 1, parent, x);
            if exists|j2: int| j + 1 <= j2 < cs.len() && parent_guard(d, cs, j2) && cs[j2] == x {
            } else {
                let (a, b) = choose|a: usize, b: int|
                    b1.contains(a) && 0 <= b < d[a as int].children.len() && #[trigger] d[
                        a as int
                    ].children[b] == x;
                let q = choose|q: int| 0 <= q < b1.len() && b1[q] == a;
                assert(pc.contains(a)) by {
                    assert(pc[a1.len() + q] == b1[q]);
                }
                assert(pc.contains(a) && 0 <= b < d[a as int].children.len() && d[
                    a as int
                ].children[b] == x);
            }
        }
    }
}

/// A listed index lies in the subtree of one of the listed roots `cs[j..]`.
proof fn lemma_preorder_children_split(
    d: Seq<NodeView>,
    cs: Seq<usize>,
    j: int,
    parent: usize,
    x: usize,
)
    requires
        preorder_children(d, cs, j, parent).contains(x),
    ensures
        exists|j2: int|
            #![trigger cs[j2]]
            j <= j2 < cs.len() && parent < cs[j2] < d.len() && preorder_from(d, cs[j2]).contains(
                x,
            ),
    decreases cs.len() - j,
{
    let pc = preorder_children(d, cs, j, parent);
    if j < 0 || j >= cs.len() {
        assert(false);
    } else if !(parent < cs[j] < d.len()) {
        lemma_preorder_children_split(d, cs, j + 1, parent, x);
    } else {
        let a1 = preorder_from(d, cs[j]);
        let b1 = preorder_children(d, cs, j + 1, parent);
        let p = choose|p: int| 0 <= p < pc.len() && pc[p] == x;
        if p < a1.len() {
            assert(a1.contains(x)) by {
                assert(a1[p] == pc[p]);
            }
            assert(j <= j < cs.len() && parent < cs[j] < d.len() && preorder_from(
                d,
                cs[j],
            ).contains(x));
        } else {
            assert(b1.contains(x)) by {
                assert(b1[p - a1.len()] == pc[p]);
            }
            lemma_preorder_children_split(d, cs, j + 1, parent, x);
        }
    }
}

/// The subtrees of two distinct children of one parent share no index: in a
/// single-parent arena the upward parent chain of any index is unique.
proof fn lemma_sibling_subtrees_disjoint(
    d: Seq<NodeView>,
    cs: Seq<usize>,
    j1: int,
    j2: int,
    parent: usize,
    x: usize,
)
    requires
        doc_wf(d),
        parent < d.len(),
        cs == d[parent as int].children,
        0 <= j1 < j2 < cs.len(),
        preorder_from(d, cs[j1]).contains(x),
    ensures
        !preorder_from(d, cs[j2]).contains(x),
    decreases x,
{
    if !preorder_from(d, cs[j2]).contains(x) {
        return;
    }
    let c1 = cs[j1];
    let c2 = cs[j2];
    assert(parent < c1 < d.len() && parent < c2 < d.len()) by {
        assert(d[parent as int].children[j1] == c1);
        assert(d[parent as int].children[j2] == c2);
    }
    assert(c1 != c2) by {
        if c1 == c2 {
            assert(d[parent as int].children[j1] == d[parent as int].children[j2]);
        }
    }
    lemma_preorder_from_bounds(d, c1);
    lemma_preorder_from_bounds(d, c2);
    if x == c1 {
        lemma_preorder_member_parent(d, c2, x);
        let (a, b) = choose|a: usize, b: int|
            preorder_from(d, c2).contains(a) && 0 <= b < d[a as int].children.len()
                && #[trigger] d[a as int].children[b] == x;
        assert(d[a as int].children[b] == d[parent as int].children[j1]);
        assert(a == parent);
        let q = choose|q: int| 0 <= q < preorder_from(d, c2).len() && preorder_from(d, c2)[q] == a;
        assert(c2 <= a);
        assert(false);
    } else if x == c2 {
        lemma_preorder_member_parent(d, c1, x);
        let (a, b) = choose|a: usize, b: int|
            preorder_from(d, c1).contains(a) && 0 <= b < d[a as int].children.len()
                && #[trigger] d[a as int].children[b] == x;
        assert(d[a as int].children[b] == d[parent as int].children[j2]);
        assert(a == parent);
        let q = choose|q: int| 0 <= q < preorder_from(d, c1).len() && preorder_from(d, c1)[q] == a;
        assert(c1 <= a);
        assert(false);
    } else {
        lemma_preorder_member_parent(d, c1, x);
        lemma_preorder_member_parent(d, c2, x);
        let (a1, b1) = choose|a1: usize, b1: int|
            preorder_from(d, c1).contains(a1) && 0 <= b1 < d[a1 as int].children.len()
                && #[trigger] d[a1 as int].children[b1] == x;
        let (a2, b2) = choose|a2: usize, b2: int|
            preorder_from(d, c2).contains(a2) && 0 <= b2 < d[a2 as int].children.len()
                && #[trigger] d[a2 as int].children[b2] == x;
        assert(d[a1 as int].children[b1] == d[a2 as int].children[b2]);
        assert(a1 == a2 && b1 == b2);
        assert((a1 as int) < d[a1 as int].children[b1]);
        lemma_sibling_subtrees_disjoint(d, cs, j1, j2, parent, a1);
        assert(false);
    }
}

/// The pre-order listing of a subtree of a well-formed arena repeats no
/// index.
proof fn lemma_preorder_from_no_duplicates(d: Seq<NodeView>, idx: usize)
    requires
        doc_wf(d),
        idx < d.len(),
    ensures
        preorder_from(d, idx).no_duplicates(),
    decreases d.len() - idx, 1int, 0int,
{
    let cs = d[idx as int].children;
    lemma_preorder_children_no_duplicates(d, cs, 0, idx);
    lemma_preorder_children_bounds(d, cs, 0, idx);
    let pc = preorder_children(d, cs, 0, idx);
    assert(seq![idx].no_duplicates());
    assert(forall|p: int, q: int|
        0 <= p < seq![idx].len() && 0 <= q < pc.len() ==> seq![idx][p] != pc[q]);
    lemma_no_dup_in_concat(seq![idx], pc);
}

/// The pre-order listing under the children `cs[j..]` of `parent` repeats no
/// index.
proof fn lemma_preorder_children_no_duplicates(
    d: Seq<NodeView>,
    cs: Seq<usize>,
    j: int,
    parent: usize,
)
    requires
        doc_wf(d),
        parent < d.len(),
        cs == d[parent as int].children,
    ensures
        preorder_children(d, cs, j, parent).no_duplicates(),
    decreases d.len() - parent, 0int, cs.len() - j,
{
    if 0 <= j < cs.len() {
        assert(parent < cs[j] < d.len()) by {
            assert(d[parent as int].children[j] == cs[j]);
        }
        lemma_preorder_from_no_duplicates(d, cs[j]);
        lemma_preorder_children_no_duplicates(d, cs, j + 1, parent);
        let a = preorder_from(d, cs[j]);
        let b = preorder_children(d, cs, j + 1, parent);
        assert forall|p: int, q: int| 0 <= p < a.len() && 0 <= q < b.len() implies a[p] != b[q] by {
            if a[p] == b[q] {
                let x = a[p];
                assert(a.contains(x)) by {
                    assert(a[p] == x);
                }
                assert(b.contains(x)) by {
                    assert(b[q] == x);
                }
                lemma_preorder_children_split(d, cs, j + 1, parent, x);
                let j2 = choose|j2: int|
                    j + 1 <= j2 < cs.len() && parent < cs[j2] < d.len() && #[trigger] cs[j2]
                        == cs[j2] && preorder_from(d, cs[j2]).contains(x);
                lemma_sibling_subtrees_disjoint(d, cs, j, j2, parent, x);
            }
        }
        lemma_no_dup_in_concat(a, b);
    }
}

/// An element of a filtered sequence is an element of the sequence.
proof fn lemma_filter_member<A>(s: Seq<A>, pred: spec_fn(A) -> bool, x: A)
    requires
        s.filter(pred).contains(x),
    ensures
        s.contains(x),
    decreases s.len(),
{
    reveal(Seq::filter);
    if s.len() == 0 {
        assert(false);
    } else {
        let dl = s.drop_last();
        let dlf = dl.filter(pred);
        if pred(s.last()) && x == s.last() {
            assert(s.contains(x)) by {
                assert(s[s.len() - 1] == x);
            }
        } else {
            assert(dlf.contains(x)) by {
                let p = choose|p: int| 0 <= p < s.filter(pred).len() && s.filter(pred)[p] == x;
                if pred(s.last()) {
                    assert(s.filter(pred) == dlf.push(s.last()));
                    assert(p < dlf.len());
                    assert(dlf[p] == x);
                } else {
                    assert(s.filter(pred) == dlf);
                    assert(dlf[p] == x);
                }
            }
            lemma_filter_member(dl, pred, x);
            let p = choose|p: int| 0 <= p < dl.len() && dl[p] == x;
            assert(s.contains(x)) by {
                assert(s[p] == dl[p]);
            }
        }
    }
}

/// Filtering keeps a duplicate-free sequence duplicate-free.
proof fn lemma_filter_no_duplicates<A>(s: Seq<A>, pred: spec_fn(A) -> bool)
    requires
        s.no_duplicates(),
    ensures
        s.filter(pred).no_duplicates(),
    decreases s.len(),
{
    reveal(Seq::filter);
    if s.len() > 0 {
        let dl = s.drop_last();
        let dlf = dl.filter(pred);
        assert(dl.no_duplicates()) by {
            assert(forall|p: int| 0 <= p < dl.len() ==> dl[p] == s[p]);
        }
        lemma_filter_no_duplicates(dl, pred);
        if pred(s.last()) {
            assert(s.filter(pred) == dlf.push(s.last()));
            if dlf.contains(s.last()) {
                lemma_filter_member(dl, pred, s.last());
                let p = choose|p: int| 0 <= p < dl.len() && dl[p] == s.last();
                assert(s[p] == s[s.len() - 1]);
                assert(false);
            }
            assert forall|p: int, q: int|
                0 <= p < dlf.push(s.last()).len() && 0 <= q < dlf.push(s.last()).len() && p
                    != q implies dlf.push(s.last())[p] != dlf.push(s.last())[q] by {
                if p < dlf.len() && q < dlf.len() {
                } else if p == dlf.len() {
                    if dlf.push(s.last())[p] == dlf.push(s.last())[q] {
                        assert(dlf.contains(s.last())) by {
                            assert(dlf[q] == s.last());
                        }
                    }
                } else {
                    if dlf.push(s.last())[p] == dlf.push(s.last())[q] {
                        assert(dlf.contains(s.last())) by {
                            assert(dlf[p] == s.last());
                        }
                    }
                }
            }
        }
    }
}

/// Uniqueness of traversal: the element list for any tag on a well-formed
/// (single-parent) document names each element at most once.
pub proof fn lemma_elements_by_tag_no_duplicates(d: Seq<NodeView>, tag: Seq<char>)
    requires
        doc_wf(d),
    ensures
        elements_by_tag(d, tag).no_duplicates(),
{
    lemma_preorder_from_no_duplicates(d, 0);
    lemma_filter_no_duplicates(preorder_from(d, 0), tag_pred(d, tag));
}

/// Position of the first attribute named `name` in the list.
pub fn attr_position(attrs: &Vec<Attr>, name: &String) -> (r: Option<usize>)
    ensures
        match r {
            Some(j) => j < attrs.len() && find_attr(attrs@.map_values(|a: Attr| a@), name@) == Some(
                j as int,
            ),
            None => find_attr(attrs@.map_values(|a: Attr| a@), name@) is None,
        },
{
    let ghost av = attrs@.map_values(|a: Attr| a@);
    let mut j: usize = 0;
    while j < attrs.len()
        invariant
            0 <= j <= attrs.len(),
            av == attrs@.map_values(|a: Attr| a@),
            find_attr_from(av, 0, name@) == find_attr_from(av, j as int, name@),
        decreases attrs.len() - j,
    {
        if attrs[j].name == *name {
            assert(av[j as int].name == name@);
            return Some(j);
        }
        assert(find_attr_from(av, j as int, name@) == find_attr_from(av, j + 1, name@));
        j = j + 1;
    }
    None
}

/// Whether the node is an element with some `id` attribute equal to `id`.
pub fn node_matches_id(node: &Node, id: &String) -> (r: bool)
    ensures
        r == node_has_id(node@, id@),
{
    match &node.data {
        NodeData::Element { attrs, .. } => {
            let ghost av = attrs@.map_values(|a: Attr| a@);
            let id_name: String = "id".to_owned();
            let mut j: usize = 0;
            while j < attrs.len()
                invariant
                    0 <= j <= attrs.len(),
                    av == attrs@.map_values(|a: Attr| a@),
                    node@.data matches NodeDataView::Element { attrs: a2, .. } && a2 == av,
                    id_name@ == "id"@,
                    forall|k: int|
                        0 <= k < j ==> !((#[trigger] av[k]).name == "id"@ && av[k].value == id@),
                decreases attrs.len() - j,
            {
                if attrs[j].name == id_name && attrs[j].value == *id {
                    assert(node_has_id(node@, id@)) by {
                        assert(exists|k: int|
                            0 <= k < av.len() && (#[trigger] av[k]).name == "id"@ && av[k].value
                                == id@) by {
                            assert(0 <= j < av.len() && (av[j as int]).name == "id"@ && av[j
                                as int].value == id@);
                        }
                    }
                    return true;
                }
                j = j + 1;
            }
            false
        },
        _ => false,
    }
}

/// Pre-order search of the subtree rooted at `idx` for the first element
/// whose `id` attribute equals `id`.
pub fn search_id_from(doc: &Doc, idx: usize, id: &String) -> (r: Option<usize>)
    requires
        doc.wf(),
        idx < doc.nodes.len(),
    ensures
        r == find_by_id_from(doc@, idx, id@),
        r matches Some(n) ==> n < doc.nodes.len(),
    decreases doc.nodes.len() - idx, 1int, 0int,
{
    if node_matches_id(&doc.nodes[idx], id) {
        Some(idx)
    } else {
        search_id_in_children(doc, &doc.nodes[idx].children, 0, idx, id)
    }
}

/// Continues `search_id_from` over the children `cs[j..]` of node `parent`.
pub fn search_id_in_children(
    doc: &Doc,
    cs: &Vec<usize>,
    j: usize,
    parent: usize,
    id: &String,
) -> (r: Option<usize>)
    requires
        doc.wf(),
        parent < doc.nodes.len(),
        cs@ == doc@[parent as int].children,
    ensures
        r == find_by_id_in_children(doc@, cs@, j as int, parent, id@),
        r matches Some(n) ==> n < doc.nodes.len(),
    decreases doc.nodes.len() - parent, 0int, cs.len() - j,
{
    if j >= cs.len() {
        None
    } else {
        let c = cs[j];
        assert(parent < c < doc.nodes.len());
        match search_id_from(doc, c, id) {
            Some(h) => Some(h),
            None => search_id_in_children(doc, cs, j + 1, parent, id),
        }
    }
}

/// The first element of the document carrying an `id` attribute equal to
/// `id`, searching in document (pre-order) order.
pub fn get_element_by_id(doc: &Doc, id: &String) -> (r: Option<usize>)
    requires
        doc.wf(),
    ensures
        r == find_by_id(doc@, id@),
        r matches Some(n) ==> n < doc.nodes.len(),
{
    search_id_from(doc, 0, id)
}

/// Whether the node is an element whose tag equals `tag`.
pub fn node_matches_tag(node: &Node, tag: &String) -> (r: bool)
    ensures
        r == node_has_tag(node@, tag@),
{
    match &node.data {
        NodeData::Element { tag: t, .. } => *t == *tag,
        _ => false,
    }
}

/// The value of the first attribute named `name` of node `n`, if `n` is an
/// element and carries one.
pub open spec fn attr_value_of(n: NodeView, name: Seq<char>) -> Option<Seq<char>> {
    match n.data {
        NodeDataView::Element { attrs, .. } => match find_attr(attrs, name) {
            Some(j) => Some(attrs[j].value),
            None => None,
        },
        _ => None,
    }
}

/// The attribute list with the first attribute named `name` overwritten to
/// `value`; when no attribute has that name, the attribute is created at the
/// end of the list.
pub open spec fn attrs_with(attrs: Seq<AttrView>, name: Seq<char>, value: Seq<char>) -> Seq<
    AttrView,
> {
    match find_attr(attrs, name) {
        Some(j) => attrs.update(j, AttrView { name, value }),
        None => attrs.push(AttrView { name, value }),
    }
}

/// The node with the first attribute named `name` overwritten (or created);
/// a node that is not an element is unchanged.
pub open spec fn node_with_attr(n: NodeView, name: Seq<char>, value: Seq<char>) -> NodeView {
    match n.data {
        NodeDataView::Element { tag, attrs } => NodeView {
            data: NodeDataView::Element { tag, attrs: attrs_with(attrs, name, value) },
            children: n.children,
        },
        _ => n,
    }
}

/// The document after overwriting (or creating) an attribute of node `n`.
pub open spec fn doc_with_attr(
    d: Seq<NodeView>,
    n: usize,
    name: Seq<char>,
    value: Seq<char>,
) -> Seq<NodeView> {
    d.update(n as int, node_with_attr(d[n as int], name, value))
}

/// A text node with its contents overwritten; every other node unchanged.
pub open spec fn text_set(n: NodeView, text: Seq<char>) -> NodeView {
    match n.data {
        NodeDataView::Text { .. } => NodeView {
            data: NodeDataView::Text { contents: text },
            children: n.children,
        },
        _ => n,
    }
}

/// The document after overwriting the contents of every direct text-node
/// child of the element `n`; a node that is not an element is left as it is.
pub open spec fn doc_with_text(d: Seq<NodeView>, n: usize, text: Seq<char>) -> Seq<NodeView> {
    if d[n as int].data is Element {
        Seq::new(
            d.len(),
            |i: int|
                if d[n as int].children.contains(i as usize) {
                    text_set(d[i], text)
                } else {
                    d[i]
                },
        )
    } else {
        d
    }
}

/// Reads the first attribute named `name` of node `n`.
pub fn get_attribute(doc: &Doc, n: usize, name: &String) -> (r: Option<String>)
    requires
        n < doc.nodes.len(),
    ensures
        match r {
            Some(v) => attr_value_of(doc@[n as int], name@) == Some(v@),
            None => attr_value_of(doc@[n as int], name@) is None,
        },
{
    match &doc.nodes[n].data {
        NodeData::Element { attrs, .. } => match attr_position(attrs, name) {
            Some(j) => Some(attrs[j].value.clone()),
            None => None,
        },
        _ => None,
    }
}

/// Overwrites the value of the first attribute of node `n` named `name`,
/// creating the attribute when the element has none of that name; a node
/// that is not an element is left as it is.
pub fn set_attribute(doc: &mut Doc, n: usize, name: &String, value: &String)
    requires
        old(doc).wf(),
        n < old(doc).nodes.len(),
    ensures
        final(doc)@ == doc_with_attr(old(doc)@, n, name@, value@),
        final(doc).wf(),
{
    let ghost d0 = doc@;
    let pos: Option<usize> = match &doc.nodes[n].data {
        NodeData::Element { attrs, .. } => attr_position(attrs, name),
        _ => None,
    };
    match pos {
        Some(j) => {
            match &mut doc.nodes[n].data {
                NodeData::Element { attrs, .. } => {
                    attrs[j] = Attr { name: name.clone(), value: value.clone() };
                },
                _ => {
                    proof {
                        assert(false);
                    }
                },
            }
            proof {
                assert(doc@[n as int] =~~= node_with_attr(d0[n as int], name@, value@));
            }
        },
        None => {
            match &mut doc.nodes[n].data {
                NodeData::Element { attrs, .. } => {
                    attrs.push(Attr { name: name.clone(), value: value.clone() });
                },
                _ => {},
            }
            proof {
                assert(doc@[n as int] =~~= node_with_attr(d0[n as int], name@, value@));
            }
        },
    }
    proof {
        assert(doc@ =~~= doc_with_attr(d0, n, name@, value@));
        assert forall|i: int| 0 <= i < d0.len() implies #[trigger] doc@[i].children
            == d0[i].children by {}
        lemma_wf_same_children(d0, doc@);
    }
}

/// Overwrites the contents of every direct text-node child of the element
/// `n`; a node that is not an element is left as it is.
pub fn set_text(doc: &mut Doc, n: usize, text: &String)
    requires
        old(doc).wf(),
        n < old(doc).nodes.len(),
    ensures
        final(doc)@ == doc_with_text(old(doc)@, n, text@),
        final(doc).wf(),
{
    let ghost d0 = doc@;
    let is_element = match &doc.nodes[n].data {
        NodeData::Element { .. } => true,
        _ => false,
    };
    if !is_element {
        return;
    }
    let mut j: usize = 0;
    while j < doc.nodes[n].children.len()
        invariant
            0 <= j <= doc.nodes[n as int].children.len(),
            doc@.len() == d0.len(),
            doc@[n as int] == d0[n as int],
            forall|k: int|
                0 <= k < doc@.len() ==> #[trigger] doc@[k] == if d0[n as int].children.take(
                    j as int,
                ).contains(k as usize) {
                    text_set(d0[k], text@)
                } else {
                    d0[k]
                },
        decreases doc.nodes[n as int].children.len() - j,
    {
        let c = doc.nodes[n].children[j];
        assert(n < c < doc@.len());
        let ghost dpre = doc@;
        let is_text = match &doc.nodes[c].data {
            NodeData::Text { .. } => true,
            _ => false,
        };
        if is_text {
            doc.nodes[c].data = NodeData::Text { contents: text.clone() };
        }
        proof {
            assert(d0[n as int].children.take(j + 1) =~= d0[n as int].children.take(j as int).push(
                d0[n as int].children[j as int],
            ));
            assert(dpre[c as int] == if d0[n as int].children.take(j as int).contains(c) {
                text_set(d0[c as int], text@)
            } else {
                d0[c as int]
            });
            assert(dpre[c as int].data is Text <==> d0[c as int].data is Text);
            if is_text {
                assert(doc@[c as int].data == NodeDataView::Text { contents: text@ });
                assert(doc@[c as int].children == dpre[c as int].children);
                assert(doc@[c as int] =~~= text_set(d0[c as int], text@));
            } else {
                assert(doc@[c as int] == dpre[c as int]);
                assert(text_set(d0[c as int], text@) == d0[c as int]);
                assert(doc@[c as int] =~~= text_set(d0[c as int], text@));
            }
            assert forall|k: int| 0 <= k < doc@.len() implies #[trigger] doc@[k] == if d0[
                n as int
            ].children.take(j + 1).contains(k as usize) {
                text_set(d0[k], text@)
            } else {
                d0[k]
            } by {
                if k != c {
                    assert(doc@[k] == dpre[k]);
                    assert(dpre[k] == if d0[n as int].children.take(j as int).contains(k as usize) {
                        text_set(d0[k], text@)
                    } else {
                        d0[k]
                    });
                } else {
                    assert(d0[n as int].children.take(j + 1)[j as int] == c);
                    assert(d0[n as int].children.take(j + 1).contains(c));
                }
            }
        }
        j = j + 1;
    }
    proof {
        assert(d0[n as int].children.take(d0[n as int].children.len() as int) =~= d0[
            n as int
        ].children);
        assert(doc@ =~= doc_with_text(d0, n, text@));
        assert forall|i: int| 0 <= i < d0.len() implies #[trigger] doc@[i].children
            == d0[i].children by {}
        lemma_wf_same_children(d0, doc@);
    }
}

/// Filtering a one-element sequence keeps or drops that single element.
proof fn lemma_filter_singleton<A>(x: A, pred: spec_fn(A) -> bool)
    ensures
        seq![x].filter(pred) == if pred(x) {
            seq![x]
        } else {
            Seq::<A>::empty()
        },
{
    reveal_with_fuel(Seq::filter, 2);
    assert(seq![x].drop_last() =~= Seq::<A>::empty());
    assert(seq![x].last() == x);
    if pred(x) {
        assert(Seq::<A>::empty().push(x) =~= seq![x]);
    }
}

/// Appends to `out` the elements of the subtree rooted at `idx` whose tag
/// equals `tag`, in pre-order.
pub fn collect_tags_from(doc: &Doc, idx: usize, tag: &String, out: &mut Vec<usize>)
    requires
        doc.wf(),
        idx < doc.nodes.len(),
    ensures
        final(out)@ == old(out)@ + tags_from(doc@, idx, tag@),
        forall|k: int|
            old(out)@.len() <= k < final(out)@.len() ==> #[trigger] final(out)@[k]
                < doc.nodes.len(),
    decreases doc.nodes.len() - idx, 1int, 0int,
{
    broadcast use Seq::filter_distributes_over_add;

    let ghost pred = tag_pred(doc@, tag@);
    let ghost out0 = out@;
    if node_matches_tag(&doc.nodes[idx], tag) {
        out.push(idx);
    }
    proof {
        lemma_filter_singleton(idx, pred);
        assert(out@ =~= out0 + seq![idx].filter(pred));
    }
    collect_tags_in_children(doc, &doc.nodes[idx].children, 0, idx, tag, out);
    proof {
        assert(preorder_from(doc@, idx) == seq![idx] + preorder_children(
            doc@,
            doc@[idx as int].children,
            0,
            idx,
        ));
        assert(out@ =~= out0 + tags_from(doc@, idx, tag@));
    }
}

/// Continues `collect_tags_from` over the children `cs[j..]` of `parent`.
pub fn collect_tags_in_children(
    doc: &Doc,
    cs: &Vec<usize>,
    j: usize,
    parent: usize,
    tag: &String,
    out: &mut Vec<usize>,
)
    requires
        doc.wf(),
        parent < doc.nodes.len(),
        cs@ == doc@[parent as int].children,
    ensures
        final(out)@ == old(out)@ + preorder_children(doc@, cs@, j as int, parent).filter(
            tag_pred(doc@, tag@),
        ),
        forall|k: int|
            old(out)@.len() <= k < final(out)@.len() ==> #[trigger] final(out)@[k]
                < doc.nodes.len(),
    decreases doc.nodes.len() - parent, 0int, cs.len() - j,
{
    broadcast use Seq::filter_distributes_over_add;

    let ghost pred = tag_pred(doc@, tag@);
    if j >= cs.len() {
        proof {
            reveal_with_fuel(Seq::filter, 1);
            assert(preorder_children(doc@, cs@, j as int, parent) =~= Seq::<usize>::empty());
            assert(out@ =~= out@ + Seq::<usize>::empty().filter(pred));
        }
    } else {
        let c = cs[j];
        assert(parent < c < doc.nodes.len());
        let ghost out0 = out@;
        collect_tags_from(doc, c, tag, out);
        collect_tags_in_children(doc, cs, j + 1, parent, tag, out);
        proof {
            assert(preorder_children(doc@, cs@, j as int, parent) == preorder_from(doc@, c)
                + preorder_children(doc@, cs@, j + 1, parent));
            assert(out@ =~= out0 + preorder_children(doc@, cs@, j as int, parent).filter(pred));
        }
    }
}

/// The elements of the document whose tag equals `tag`, in document
/// (pre-order) order.
pub fn query_selector(doc: &Doc, tag: &String) -> (r: Vec<usize>)
    requires
        doc.wf(),
    ensures
        r@ == elements_by_tag(doc@, tag@),
        r@.no_duplicates(),
        forall|k: int| 0 <= k < r@.len() ==> #[trigger] r@[k] < doc.nodes.len(),
{
    let mut out: Vec<usize> = Vec::new();
    collect_tags_from(doc, 0, tag, &mut out);
    proof {
        assert(out@ =~= elements_by_tag(doc@, tag@));
        lemma_elements_by_tag_no_duplicates(doc@, tag@);
    }
    out
}

/// Whether the source text of the script element `n` can be read off: the
/// element has no children, or its first child is a text node.
pub open spec fn script_shape_ok(d: Seq<NodeView>, n: usize) -> bool {
    n < d.len() && (d[n as int].children.len() == 0 || (d[n as int].children[0] < d.len() && d[d[
        n as int
    ].children[0] as int].data is Text))
}

/// The source text of the script element `n`: the contents of its first
/// (text-node) child, or empty when it has no children.
pub open spec fn script_text(d: Seq<NodeView>, n: usize) -> Seq<char> {
    if d[n as int].children.len() == 0 {
        Seq::empty()
    } else {
        match d[d[n as int].children[0] as int].data {
            NodeDataView::Text { contents } => contents,
            _ => Seq::empty(),
        }
    }
}

/// The script elements of the document, each exactly once, in document
/// (pre-order) order.
pub fn extract_scripts(doc: &Doc) -> (r: Vec<usize>)
    requires
        doc.wf(),
    ensures
        r@ == elements_by_tag(doc@, "script"@),
        r@.no_duplicates(),
{
    let tag: String = "script".to_owned();
    query_selector(doc, &tag)
}

/// Whether every script element of the document passes `script_shape_ok`.
pub open spec fn scripts_ok(d: Seq<NodeView>) -> bool {
    forall|k: int|
        0 <= k < elements_by_tag(d, "script"@).len() ==> script_shape_ok(
            d,
            #[trigger] elements_by_tag(d, "script"@)[k],
        )
}

/// Checks that the source text of every script element can be read off.
pub fn scripts_extractable(doc: &Doc) -> (r: bool)
    requires
        doc.wf(),
    ensures
        r == scripts_ok(doc@),
{
    let scripts = extract_scripts(doc);
    let mut j: usize = 0;
    while j < scripts.len()
        invariant
            0 <= j <= scripts.len(),
            scripts@ == elements_by_tag(doc@, "script"@),
            forall|k: int| 0 <= k < j ==> script_shape_ok(doc@, #[trigger] scripts@[k]),
        decreases scripts.len() - j,
    {
        let n = scripts[j];
        if n >= doc.nodes.len() {
            return false;
        }
        if doc.nodes[n].children.len() > 0 {
            let c = doc.nodes[n].children[0];
            if c >= doc.nodes.len() {
                return false;
            }
            let first_is_text = match &doc.nodes[c].data {
                NodeData::Text { .. } => true,
                _ => false,
            };
            if !first_is_text {
                return false;
            }
        }
        j = j + 1;
    }
    true
}

/// The source text of the script element `script`: the contents of its first
/// child when that child is a text node, or empty when it has no children.
pub fn contents(doc: &Doc, script: usize) -> (r: String)
    requires
        doc.wf(),
        script_shape_ok(doc@, script),
    ensures
        r@ == script_text(doc@, script),
{
    if doc.nodes[script].children.len() == 0 {
        String::new()
    } else {
        let c = doc.nodes[script].children[0];
        match &doc.nodes[c].data {
            NodeData::Text { contents } => contents.clone(),
            _ => {
                proof {
                    assert(false);
                }
                String::new()
            },
        }
    }
}

} // verus!
