//! From a plan to text: the fixed table of shapes, colours and line styles,
//! and the document that the writer makes of the statements.

use vstd::prelude::*;
use crate::dot::{Attr, DotWriter, attrs_view, close_text, edge_text, footer_text, header_text, node_text, open_text, scope_attr_text};
use crate::graph::{Edge, EdgeKind, Name, Node, NodeKind, name_labels};
use crate::plan::{Item, items_within};
use crate::text::push_text;

verus! {

/// The texts of `v`.
pub open spec fn text_views(v: Seq<String>) -> Seq<Seq<char>> {
    Seq::new(v.len(), |i: int| v[i]@)
}

/// The attributes a node is declared with: a system is a box and a resource
/// an ellipse, each with its label; the anchor of a cluster is an unseen point.
pub open spec fn node_attrs(kind: NodeKind, label: Seq<char>) -> Seq<(Seq<char>, Seq<char>)> {
    match kind {
        NodeKind::System => seq![("label"@, label), ("shape"@, "box"@)],
        NodeKind::Resource => seq![("label"@, label), ("shape"@, "ellipse"@)],
        NodeKind::SystemSet => seq![("shape"@, "point"@), ("style"@, "invis"@)],
    }
}

/// The line of an edge by its kind: order is solid; an ambiguity is dashed,
/// red and pulls nothing into rank; a read is blue and a write orange.
pub open spec fn kind_attrs(kind: EdgeKind) -> Seq<(Seq<char>, Seq<char>)> {
    match kind {
        EdgeKind::Order => seq![("style"@, "solid"@)],
        EdgeKind::Contains => Seq::empty(),
        EdgeKind::Ambiguous => seq![
            ("style"@, "dashed"@),
            ("color"@, "red"@),
            ("constraint"@, "false"@),
        ],
        EdgeKind::Read => seq![("color"@, "blue"@)],
        EdgeKind::Write => seq![("color"@, "orange"@)],
    }
}

/// Whether an edge of this kind has a direction: all but ambiguities have.
pub open spec fn kind_directed(kind: EdgeKind) -> bool {
    kind != EdgeKind::Ambiguous
}

/// The node an edge is drawn from: data flows from a resource to the system
/// that reads it, so a read is drawn from its resource.
pub open spec fn drawn_from(e: Edge) -> usize {
    if e.kind == EdgeKind::Read {
        e.to
    } else {
        e.from
    }
}

/// The node an edge is drawn to.
pub open spec fn drawn_to(e: Edge) -> usize {
    if e.kind == EdgeKind::Read {
        e.from
    } else {
        e.to
    }
}

/// The attribute that cuts an edge off at the border of a cluster, where
/// the node at that end is a set.
pub open spec fn clip_attrs(nodes: Seq<Node>, ids: Seq<Seq<char>>, key: Seq<char>, i: int) -> Seq<
    (Seq<char>, Seq<char>),
> {
    if nodes[i].kind == NodeKind::SystemSet {
        seq![(key, "cluster_"@ + ids[i])]
    } else {
        Seq::empty()
    }
}

/// The attributes an edge is drawn with.
pub open spec fn link_attrs(nodes: Seq<Node>, ids: Seq<Seq<char>>, e: Edge) -> Seq<
    (Seq<char>, Seq<char>),
> {
    kind_attrs(e.kind) + clip_attrs(nodes, ids, "ltail"@, drawn_from(e) as int) + clip_attrs(
        nodes,
        ids,
        "lhead"@,
        drawn_to(e) as int,
    )
}

/// The text of one statement inside `depth` open clusters.
pub open spec fn item_text(
    nodes: Seq<Node>,
    ids: Seq<Seq<char>>,
    labels: Seq<Seq<char>>,
    depth: nat,
    item: Item,
) -> Seq<char> {
    match item {
        Item::Open(i) => open_text(depth, ids[i as int]) + scope_attr_text(
            depth + 1,
            "label"@,
            labels[i as int],
        ) + node_text(depth + 1, ids[i as int], node_attrs(NodeKind::SystemSet, labels[i as int])),
        Item::Close => if depth == 0 {
            Seq::empty()
        } else {
            close_text(depth)
        },
        Item::Node(i) => node_text(
            depth,
            ids[i as int],
            node_attrs(nodes[i as int].kind, labels[i as int]),
        ),
        Item::Link(e) => edge_text(
            depth,
            true,
            ids[drawn_from(e) as int],
            ids[drawn_to(e) as int],
            kind_directed(e.kind),
            link_attrs(nodes, ids, e),
        ),
    }
}

/// The number of open clusters after one more statement.
pub open spec fn depth_after(depth: nat, item: Item) -> nat {
    match item {
        Item::Open(_) => depth + 1,
        Item::Close => if depth == 0 {
            0
        } else {
            (depth - 1) as nat
        },
        _ => depth,
    }
}

/// The number of clusters that are open after `items`.
pub open spec fn depth_of(items: Seq<Item>) -> nat
    decreases items.len(),
{
    if items.len() == 0 {
        0
    } else {
        depth_after(depth_of(items.drop_last()), items.last())
    }
}

/// The text of the statements, one after the other.
pub open spec fn items_text(
    nodes: Seq<Node>,
    ids: Seq<Seq<char>>,
    labels: Seq<Seq<char>>,
    items: Seq<Item>,
) -> Seq<char>
    decreases items.len(),
{
    if items.len() == 0 {
        Seq::empty()
    } else {
        items_text(nodes, ids, labels, items.drop_last()) + item_text(
            nodes,
            ids,
            labels,
            depth_of(items.drop_last()),
            items.last(),
        )
    }
}

/// The whole document: a directed graph under `title` in which edges may
/// end at clusters, the statements, and the closing of whatever is open.
pub open spec fn document_text(
    title: Seq<char>,
    nodes: Seq<Node>,
    ids: Seq<Seq<char>>,
    labels: Seq<Seq<char>>,
    items: Seq<Item>,
) -> Seq<char> {
    header_text(true, title) + scope_attr_text(0, "compound"@, "true"@) + items_text(
        nodes,
        ids,
        labels,
        items,
    ) + footer_text(depth_of(items))
}

/// An attribute from two texts.
pub fn attr(key: &str, value: &str) -> (a: Attr)
    ensures
        a@ == (key@, value@),
{
    let mut k = String::new();
    push_text(&mut k, key);
    let mut v = String::new();
    push_text(&mut v, value);
    Attr { key: k, value: v }
}

/// The attributes a node of this kind is declared with.
pub fn node_attr_list(kind: NodeKind, label: &str) -> (v: Vec<Attr>)
    ensures
        attrs_view(v@) == node_attrs(kind, label@),
{
    let mut v: Vec<Attr> = Vec::new();
    match kind {
        NodeKind::System => {
            v.push(attr("label", label));
            v.push(attr("shape", "box"));
        },
        NodeKind::Resource => {
            v.push(attr("label", label));
            v.push(attr("shape", "ellipse"));
        },
        NodeKind::SystemSet => {
            v.push(attr("shape", "point"));
            v.push(attr("style", "invis"));
        },
    }
    assert(attrs_view(v@) =~= node_attrs(kind, label@));
    v
}

/// Whether an edge of this kind has a direction.
pub fn is_directed(kind: EdgeKind) -> (r: bool)
    ensures
        r == kind_directed(kind),
{
    match kind {
        EdgeKind::Ambiguous => false,
        _ => true,
    }
}

/// The attributes an edge is drawn with.
pub fn link_attr_list(nodes: &Vec<Node>, ids: &Vec<String>, e: Edge) -> (v: Vec<Attr>)
    requires
        ids@.len() == nodes@.len(),
        e.from < nodes@.len(),
        e.to < nodes@.len(),
    ensures
        attrs_view(v@) == link_attrs(nodes@, text_views(ids@), e),
{
    let mut v: Vec<Attr> = Vec::new();
    match e.kind {
        EdgeKind::Order => {
            v.push(attr("style", "solid"));
        },
        EdgeKind::Contains => {},
        EdgeKind::Ambiguous => {
            v.push(attr("style", "dashed"));
            v.push(attr("color", "red"));
            v.push(attr("constraint", "false"));
        },
        EdgeKind::Read => {
            v.push(attr("color", "blue"));
        },
        EdgeKind::Write => {
            v.push(attr("color", "orange"));
        },
    }
    assert(attrs_view(v@) =~= kind_attrs(e.kind));
    let (from, to) = match e.kind {
        EdgeKind::Read => (e.to, e.from),
        _ => (e.from, e.to),
    };
    let ghost tv = text_views(ids@);
    if nodes[from].kind == NodeKind::SystemSet {
        let mut name = String::new();
        push_text(&mut name, "cluster_");
        push_text(&mut name, ids[from].as_str());
        v.push(attr("ltail", name.as_str()));
    }
    assert(attrs_view(v@) =~= kind_attrs(e.kind) + clip_attrs(nodes@, tv, "ltail"@, from as int));
    if nodes[to].kind == NodeKind::SystemSet {
        let mut name = String::new();
        push_text(&mut name, "cluster_");
        push_text(&mut name, ids[to].as_str());
        v.push(attr("lhead", name.as_str()));
    }
    assert(attrs_view(v@) =~= link_attrs(nodes@, tv, e));
    v
}

/// Writes the document of a plan: a directed graph under `title` with the
/// statements of `items` in their order.
#[verifier::loop_isolation(false)]
pub fn render(
    title: &str,
    nodes: &Vec<Node>,
    names: &Vec<Name>,
    ids: &Vec<String>,
    items: &Vec<Item>,
) -> (s: String)
    requires
        names@.len() == nodes@.len(),
        ids@.len() == nodes@.len(),
        items_within(nodes@.len(), items@),
    ensures
        s@ == document_text(title@, nodes@, text_views(ids@), name_labels(names@), items@),
{
    let ghost tv = text_views(ids@);
    let ghost labels = name_labels(names@);
    let mut w = DotWriter::begin(true, title);
    w.scope_attr("compound", "true");
    let ghost lead = w.text();
    let mut k: usize = 0;
    assert(items@.subrange(0, 0) =~= Seq::<Item>::empty());
    while k < items.len()
        invariant
            k <= items.len(),
            w.directed(),
            w.depth() == depth_of(items@.subrange(0, k as int)),
            w.depth() <= k,
            w.text() == lead + items_text(nodes@, tv, labels, items@.subrange(0, k as int)),
        decreases items.len() - k,
    {
        let ghost done = items@.subrange(0, k as int);
        let ghost next = items@.subrange(0, k + 1);
        let ghost d = w.depth();
        let ghost before = w.text();
        proof {
            assert(next.drop_last() =~= done);
            assert(next.last() == items@[k as int]);
        }
        match items[k] {
            Item::Open(i) => {
                w.open_cluster(ids[i].as_str());
                w.scope_attr("label", names[i].label.as_str());
                let attrs = node_attr_list(NodeKind::SystemSet, names[i].label.as_str());
                w.node(ids[i].as_str(), &attrs);
                assert(w.text() == before + item_text(nodes@, tv, labels, d, Item::Open(i)));
            },
            Item::Close => {
                w.close_cluster();
                assert(w.text() == before + item_text(nodes@, tv, labels, d, Item::Close));
            },
            Item::Node(i) => {
                let attrs = node_attr_list(nodes[i].kind, names[i].label.as_str());
                w.node(ids[i].as_str(), &attrs);
            },
            Item::Link(e) => {
                let attrs = link_attr_list(nodes, ids, e);
                let (from, to) = match e.kind {
                    EdgeKind::Read => (e.to, e.from),
                    _ => (e.from, e.to),
                };
                w.edge(ids[from].as_str(), ids[to].as_str(), is_directed(e.kind), &attrs);
            },
        }
        k += 1;
    }
    assert(items@.subrange(0, k as int) =~= items@);
    w.finish()
}

} // verus!
