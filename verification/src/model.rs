//! The graph as a mathematical value, and what each operation makes of it.
//!
//! Sequences are in container order: index 0 is the head of the list, which is
//! the element that was put in last.
use vstd::prelude::*;
use crate::list::{first_where, popped, pushed};
use crate::source::{IngestError, Stream};
use crate::text::{integer, split, trimmed};

verus! {

/// A node: its key and its label.
#[verifier::ext_equal]
pub struct NodeView {
    pub id: Seq<char>,
    pub name: Seq<char>,
}

/// One direction of a relationship.
#[verifier::ext_equal]
pub struct EdgeView {
    pub weight: Option<i32>,
    pub target: NodeView,
}

/// A node with the edges that leave it, the newest edge first.
#[verifier::ext_equal]
pub struct EntryView {
    pub owner: NodeView,
    pub neighbors: Seq<EdgeView>,
}

/// The two containers of a graph.
#[verifier::ext_equal]
pub struct GraphView {
    pub nodes: Seq<NodeView>,
    pub adjacency: Seq<EntryView>,
}

/// What an edge record says.
#[verifier::ext_equal]
pub struct EdgeRecordView {
    pub from: Seq<char>,
    pub to: Seq<char>,
    pub weight: Option<i32>,
}

/// The nodes with the key `id`.
pub open spec fn with_id(id: Seq<char>) -> spec_fn(NodeView) -> bool {
    |node: NodeView| node.id == id
}

/// The nodes with the label `name`.
pub open spec fn with_name(name: Seq<char>) -> spec_fn(NodeView) -> bool {
    |node: NodeView| node.name == name
}

/// The entries of the nodes with the key `id`.
pub open spec fn owned_by(id: Seq<char>) -> spec_fn(EntryView) -> bool {
    |entry: EntryView| entry.owner.id == id
}

/// The edges that lead elsewhere than to a node with the key `id`.
pub open spec fn avoids(id: Seq<char>) -> spec_fn(EdgeView) -> bool {
    |edge: EdgeView| edge.target.id != id
}

/// Whether one of `nodes` has the key `id`.
pub open spec fn has_id(nodes: Seq<NodeView>, id: Seq<char>) -> bool {
    first_where(nodes, with_id(id)) < nodes.len()
}

/// Whether one of `adjacency` belongs to a node with the key `id`.
pub open spec fn has_owner(adjacency: Seq<EntryView>, id: Seq<char>) -> bool {
    first_where(adjacency, owned_by(id)) < adjacency.len()
}

/// The first of `nodes` that satisfies `p`, if there is one.
pub open spec fn found(nodes: Seq<NodeView>, p: spec_fn(NodeView) -> bool) -> Option<NodeView> {
    let k = first_where(nodes, p);
    if k < nodes.len() {
        Some(nodes[k])
    } else {
        None
    }
}

/// The keys of `nodes`, in their order.
pub open spec fn ids(nodes: Seq<NodeView>) -> Seq<Seq<char>> {
    nodes.map_values(|node: NodeView| node.id)
}

/// The nodes that the entries of `adjacency` belong to, in their order.
pub open spec fn owners(adjacency: Seq<EntryView>) -> Seq<NodeView> {
    adjacency.map_values(|entry: EntryView| entry.owner)
}

/// An entry without edges.
pub open spec fn lone(owner: NodeView) -> EntryView {
    EntryView { owner, neighbors: Seq::empty() }
}

/// The node that a record writes: the first two fields of the trimmed line.
/// A line with fewer fields writes none.
pub open spec fn node_of(line: Seq<char>) -> Option<NodeView> {
    let fields = split(trimmed(line), ',');
    if fields.len() >= 2 {
        Some(NodeView { id: fields[0], name: fields[1] })
    } else {
        None
    }
}

/// The edge that a record writes: the first three fields of the trimmed
/// line, the third read as an integer, or as no weight where it writes none.
/// A line with fewer fields writes no edge.
pub open spec fn edge_of(line: Seq<char>) -> Option<EdgeRecordView> {
    let fields = split(trimmed(line), ',');
    if fields.len() >= 3 {
        Some(EdgeRecordView { from: fields[0], to: fields[1], weight: integer(fields[2]) })
    } else {
        None
    }
}

/// `adjacency` with one more edge: in the first entry of `owner`, in front,
/// to the first of `nodes` with the key `target`.
pub open spec fn linked(
    adjacency: Seq<EntryView>,
    nodes: Seq<NodeView>,
    owner: Seq<char>,
    target: Seq<char>,
    weight: Option<i32>,
) -> Seq<EntryView> {
    let at = first_where(adjacency, owned_by(owner));
    let edge = EdgeView { weight, target: nodes[first_where(nodes, with_id(target))] };
    adjacency.update(
        at,
        EntryView { owner: adjacency[at].owner, neighbors: pushed(adjacency[at].neighbors, edge) },
    )
}

/// Whether both ends of `edge` are known to `g`, as nodes and as entries.
pub open spec fn ends_known(g: GraphView, edge: EdgeRecordView) -> bool {
    &&& has_owner(g.adjacency, edge.to)
    &&& has_id(g.nodes, edge.from)
    &&& has_owner(g.adjacency, edge.from)
    &&& has_id(g.nodes, edge.to)
}

/// Whether `g` takes the record `line` of `stream`.
pub open spec fn accepts(g: GraphView, stream: Stream, line: Seq<char>) -> bool {
    match stream {
        Stream::Nodes => node_of(line) is Some,
        Stream::Edges => edge_of(line) matches Some(edge) && ends_known(g, edge),
    }
}

/// `g` after it took the record `line` of `stream`. A node goes in front of
/// the nodes that were read before it: while nodes are read, the one read
/// last is at the head. An edge goes in both directions: first from its second end to
/// its first, then from its first to its second.
pub open spec fn taken(g: GraphView, stream: Stream, line: Seq<char>) -> GraphView {
    match stream {
        Stream::Nodes => GraphView {
            nodes: pushed(g.nodes, node_of(line)->0),
            adjacency: g.adjacency,
        },
        Stream::Edges => {
            let edge = edge_of(line)->0;
            let back = linked(g.adjacency, g.nodes, edge.to, edge.from, edge.weight);
            GraphView {
                nodes: g.nodes,
                adjacency: linked(back, g.nodes, edge.from, edge.to, edge.weight),
            }
        },
    }
}

/// `g` after it was fed `records`, of which the first stands on line `line`:
/// each record is taken in turn, and the first that is unreadable or not
/// accepted ends the feeding with an error that names its line.
pub open spec fn fed(
    g: GraphView,
    stream: Stream,
    records: Seq<Option<Seq<char>>>,
    line: int,
) -> Result<GraphView, IngestError>
    decreases records.len(),
{
    if records.len() == 0 {
        Ok(g)
    } else {
        match records[0] {
            None => Err(IngestError::LineReadFailure { stream, line: line as usize }),
            Some(text) => if accepts(g, stream, text) {
                fed(taken(g, stream, text), stream, records.skip(1), line + 1)
            } else {
                Err(IngestError::MalformedRecord { stream, line: line as usize })
            },
        }
    }
}

/// `g` after the whole input `source` of `stream` was fed to it. The first
/// delivery is the header, which is passed over whatever it is; the records
/// start on line 2.
pub open spec fn fed_source(
    g: GraphView,
    stream: Stream,
    source: Option<Seq<Option<Seq<char>>>>,
) -> Result<GraphView, IngestError> {
    match source {
        None => Err(IngestError::FileNotFound { stream }),
        Some(lines) => fed(g, stream, popped(lines), 2),
    }
}

/// The graph without nodes.
pub open spec fn empty_graph() -> GraphView {
    GraphView { nodes: Seq::empty(), adjacency: Seq::empty() }
}

/// `g` once its nodes are all read: the nodes turned round, so that they
/// stand in the order in which they were read, and a fresh adjacency with one
/// entry without edges for each node, in the same order.
pub open spec fn with_entries(g: GraphView) -> GraphView {
    GraphView {
        nodes: g.nodes.reverse(),
        adjacency: g.nodes.reverse().map_values(|node: NodeView| lone(node)),
    }
}

/// The graph that the two inputs write, or why they write none: the nodes are
/// read first, then every node gets its entry, then the edges are read.
pub open spec fn ingested(
    nodes: Option<Seq<Option<Seq<char>>>>,
    edges: Option<Seq<Option<Seq<char>>>>,
) -> Result<GraphView, IngestError> {
    match fed_source(empty_graph(), Stream::Nodes, nodes) {
        Err(error) => Err(error),
        Ok(g) => fed_source(with_entries(g), Stream::Edges, edges),
    }
}

/// Well-formedness of a graph: as many entries as nodes; the entries belong
/// to the nodes, one to each and in the same order; every edge leads to one
/// of the nodes.
pub open spec fn wf(g: GraphView) -> bool {
    &&& g.nodes.len() == g.adjacency.len()
    &&& owners(g.adjacency) == g.nodes
    &&& forall|i: int, j: int|
        0 <= i < g.adjacency.len() && 0 <= j < g.adjacency[i].neighbors.len()
            ==> g.nodes.contains(#[trigger] g.adjacency[i].neighbors[j].target)
}

/// Whether no two nodes of `g` have the same key.
pub open spec fn unique_ids(g: GraphView) -> bool {
    ids(g.nodes).no_duplicates()
}

/// `entry` without the edges that lead to a node with the key `id`.
pub open spec fn stripped(entry: EntryView, id: Seq<char>) -> EntryView {
    EntryView { owner: entry.owner, neighbors: entry.neighbors.filter(avoids(id)) }
}

/// `g` without a node with the key `id`: without the first entry that such a
/// node owns, without every edge that leads to such a node, and without the
/// first such node.
pub open spec fn removed(g: GraphView, id: Seq<char>) -> GraphView {
    GraphView {
        nodes: g.nodes.remove(first_where(g.nodes, with_id(id))),
        adjacency: g.adjacency.remove(first_where(g.adjacency, owned_by(id))).map_values(
            |entry: EntryView| stripped(entry, id),
        ),
    }
}

/// The text ` -> `.
pub open spec fn arrow() -> Seq<char> {
    seq![' ', '-', '>', ' ']
}

/// The text `, `.
pub open spec fn comma() -> Seq<char> {
    seq![',', ' ']
}

/// An arrow and the key of its target for each of `neighbors`, the oldest
/// edge first.
pub open spec fn arrows(neighbors: Seq<EdgeView>) -> Seq<char>
    decreases neighbors.len(),
{
    if neighbors.len() == 0 {
        Seq::empty()
    } else {
        arrows(neighbors.skip(1)) + arrow() + neighbors[0].target.id
    }
}

/// The line of one entry: the key of its owner, a colon, the arrows to its
/// neighbors, the end of the line.
pub open spec fn entry_line(entry: EntryView) -> Seq<char> {
    entry.owner.id + seq![':'] + arrows(entry.neighbors) + seq!['\n']
}

/// The lines of all entries of `adjacency`, in their order.
pub open spec fn rendered(adjacency: Seq<EntryView>) -> Seq<char>
    decreases adjacency.len(),
{
    if adjacency.len() == 0 {
        Seq::empty()
    } else {
        entry_line(adjacency[0]) + rendered(adjacency.skip(1))
    }
}

/// A comma and the label, for each of `nodes` in their order.
pub open spec fn more_names(nodes: Seq<NodeView>) -> Seq<char>
    decreases nodes.len(),
{
    if nodes.len() == 0 {
        Seq::empty()
    } else {
        comma() + nodes[0].name + more_names(nodes.skip(1))
    }
}

/// The labels of `nodes` in their order, with a comma between one and the
/// next.
pub open spec fn names_line(nodes: Seq<NodeView>) -> Seq<char> {
    if nodes.len() == 0 {
        Seq::empty()
    } else {
        nodes[0].name + more_names(nodes.skip(1))
    }
}

/// Those of `nodes` whose key none of `others` has. The first of them comes
/// last: it is the order of a list on which they were pushed one by one.
pub open spec fn missing_from(nodes: Seq<NodeView>, others: Seq<NodeView>) -> Seq<NodeView>
    decreases nodes.len(),
{
    if nodes.len() == 0 {
        Seq::empty()
    } else if has_id(others, nodes[0].id) {
        missing_from(nodes.skip(1), others)
    } else {
        missing_from(nodes.skip(1), others).push(nodes[0])
    }
}

/// Whether `g` holds the edge `edge` at both of its ends: both ends are nodes
/// of `g` with entries, and the first entry of each holds an edge with the
/// weight of `edge` to the first node with the key of the other.
pub open spec fn entered_at_both_ends(g: GraphView, edge: EdgeRecordView) -> bool {
    let from = g.nodes[first_where(g.nodes, with_id(edge.from))];
    let to = g.nodes[first_where(g.nodes, with_id(edge.to))];
    &&& has_id(g.nodes, edge.from) && from.id == edge.from
    &&& has_id(g.nodes, edge.to) && to.id == edge.to
    &&& has_owner(g.adjacency, edge.from)
    &&& has_owner(g.adjacency, edge.to)
    &&& g.adjacency[first_where(g.adjacency, owned_by(edge.from))].neighbors.contains(
        EdgeView { weight: edge.weight, target: to },
    )
    &&& g.adjacency[first_where(g.adjacency, owned_by(edge.to))].neighbors.contains(
        EdgeView { weight: edge.weight, target: from },
    )
}

/// The record that ends the feeding of `records`, and why: the place of the
/// first one that was not delivered or that the graph did not take, if the
/// ones before it were all taken.
pub open spec fn refused_at(
    g: GraphView,
    stream: Stream,
    records: Seq<Option<Seq<char>>>,
    k: int,
) -> bool {
    &&& 0 <= k < records.len()
    &&& fed(g, stream, records.take(k), 0) matches Ok(so_far) && (records[k] matches Some(text)
        ==> !accepts(so_far, stream, text))
}

/// The error that names the record at place `k` of `records`, of which the
/// first stands on line `line`.
pub open spec fn refusal(
    stream: Stream,
    records: Seq<Option<Seq<char>>>,
    line: int,
    k: int,
) -> IngestError {
    if records[k] is None {
        IngestError::LineReadFailure { stream, line: (line + k) as usize }
    } else {
        IngestError::MalformedRecord { stream, line: (line + k) as usize }
    }
}

/// The nodes that `records` write, in the order of the records.
pub open spec fn nodes_of(records: Seq<Option<Seq<char>>>) -> Seq<NodeView> {
    records.map_values(|record: Option<Seq<char>>| node_of(record->0)->0)
}

/// Whether every one of `records` was delivered and writes a node.
pub open spec fn all_write_nodes(records: Seq<Option<Seq<char>>>) -> bool {
    forall|i: int|
        0 <= i < records.len() ==> (#[trigger] records[i]) is Some && node_of(records[i]->0) is Some
}

} // verus!
