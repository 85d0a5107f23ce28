//! What holds of the graph and its operations, proved over the model.
use vstd::prelude::*;
use crate::list::{
    first_where, lemma_first_where, lemma_first_where_of_images, lemma_first_where_same, popped,
};
use crate::model::{
    accepts, all_write_nodes, avoids, edge_of, empty_graph, entered_at_both_ends, fed, fed_source,
    found, has_id, has_owner, ids, ingested, linked, missing_from, node_of, nodes_of, owned_by,
    owners, refusal, refused_at, removed, taken, unique_ids, wf, with_entries, with_id, EdgeView,
    EntryView, GraphView, NodeView,
};
use crate::source::{IngestError, Stream};

verus! {

/// A new edge changes the owner of no entry.
pub proof fn lemma_linked_keeps_owners(
    adjacency: Seq<EntryView>,
    nodes: Seq<NodeView>,
    owner: Seq<char>,
    target: Seq<char>,
    weight: Option<i32>,
)
    requires
        has_owner(adjacency, owner),
    ensures
        owners(linked(adjacency, nodes, owner, target, weight)) == owners(adjacency),
{
    let after = linked(adjacency, nodes, owner, target, weight);
    lemma_first_where(adjacency, owned_by(owner));
    assert(owners(after) =~= owners(adjacency));
}

/// Where the owners are the same, the first entry of a key is at the same
/// place.
pub proof fn lemma_same_owners_same_entries(a: Seq<EntryView>, b: Seq<EntryView>, id: Seq<char>)
    requires
        owners(a) == owners(b),
    ensures
        first_where(a, owned_by(id)) == first_where(b, owned_by(id)),
        has_owner(a, id) == has_owner(b, id),
{
    let image = |entry: EntryView| entry.owner;
    lemma_first_where_of_images(a, image, with_id(id));
    lemma_first_where_of_images(b, image, with_id(id));
    assert(a.len() == owners(a).len());
    assert(b.len() == owners(b).len());
    lemma_first_where_same(a, |entry: EntryView| with_id(id)(image(entry)), owned_by(id));
    lemma_first_where_same(b, |entry: EntryView| with_id(id)(image(entry)), owned_by(id));
}

/// One of `nodes` has the key `id` exactly if `id` is among their keys.
pub proof fn lemma_has_id_is_contains(nodes: Seq<NodeView>, id: Seq<char>)
    ensures
        has_id(nodes, id) <==> ids(nodes).contains(id),
{
    lemma_first_where(nodes, with_id(id));
    let k = first_where(nodes, with_id(id));
    if k < nodes.len() {
        assert(ids(nodes)[k] == id);
    }
    if ids(nodes).contains(id) {
        let i = choose|i: int| 0 <= i < ids(nodes).len() && ids(nodes)[i] == id;
        assert(with_id(id)(nodes[i]));
    }
}

/// In a well-formed graph every node has an entry, at the place of the node.
pub proof fn lemma_wf_gives_entry(g: GraphView, id: Seq<char>)
    requires
        wf(g),
    ensures
        has_owner(g.adjacency, id) == has_id(g.nodes, id),
        first_where(g.adjacency, owned_by(id)) == first_where(g.nodes, with_id(id)),
{
    lemma_owner_is_node(g.adjacency, id);
}

/// An entry belongs to a node with the key `id` exactly if its owner is a
/// node with that key.
pub proof fn lemma_owner_is_node(adjacency: Seq<EntryView>, id: Seq<char>)
    ensures
        first_where(adjacency, owned_by(id)) == first_where(owners(adjacency), with_id(id)),
        has_owner(adjacency, id) == has_id(owners(adjacency), id),
{
    let image = |entry: EntryView| entry.owner;
    lemma_first_where_of_images(adjacency, image, with_id(id));
    lemma_first_where_same(adjacency, |entry: EntryView| with_id(id)(image(entry)), owned_by(id));
}

/// Taking a node out of a well-formed graph leaves a well-formed graph.
pub proof fn lemma_removed_is_wf(g: GraphView, id: Seq<char>)
    requires
        wf(g),
        has_id(g.nodes, id),
    ensures
        wf(removed(g, id)),
{
    let after = removed(g, id);
    let at = first_where(g.nodes, with_id(id));
    lemma_wf_gives_entry(g, id);
    lemma_first_where(g.nodes, with_id(id));
    assert(owners(after.adjacency) =~= owners(g.adjacency).remove(at));
    assert forall|i: int, j: int|
        0 <= i < after.adjacency.len() && 0 <= j < after.adjacency[i].neighbors.len()
        implies after.nodes.contains(#[trigger] after.adjacency[i].neighbors[j].target) by {
        let origin = if i < at {
            i
        } else {
            i + 1
        };
        let kept = g.adjacency[origin].neighbors.filter(avoids(id));
        assert(after.adjacency[i].neighbors == kept);
        let edge = kept[j];
        g.adjacency[origin].neighbors.lemma_filter_pred(avoids(id), j);
        assert(kept.contains(edge));
        g.adjacency[origin].neighbors.lemma_filter_contains_rev(avoids(id), edge);
        let e = choose|e: int|
            0 <= e < g.adjacency[origin].neighbors.len() && g.adjacency[origin].neighbors[e]
                == edge;
        assert(g.nodes.contains(g.adjacency[origin].neighbors[e].target));
        let w = choose|w: int| 0 <= w < g.nodes.len() && g.nodes[w] == edge.target;
        assert(w != at);
        if w < at {
            assert(after.nodes[w] == edge.target);
        } else {
            assert(after.nodes[w - 1] == edge.target);
        }
    }
}

/// Node records are all read exactly if each was delivered and writes a
/// node. Then they stand in front of the nodes, the last one read first, and
/// the adjacency is as it was.
pub proof fn lemma_fed_nodes(g: GraphView, records: Seq<Option<Seq<char>>>, line: int)
    ensures
        fed(g, Stream::Nodes, records, line) is Ok <==> all_write_nodes(records),
        fed(g, Stream::Nodes, records, line) matches Ok(after) ==> {
            &&& after.nodes == nodes_of(records).reverse() + g.nodes
            &&& after.adjacency == g.adjacency
        },
    decreases records.len(),
{
    if records.len() == 0 {
        assert(nodes_of(records).reverse() + g.nodes =~= g.nodes);
    } else {
        let rest = records.skip(1);
        match records[0] {
            None => {},
            Some(text) => {
                if accepts(g, Stream::Nodes, text) {
                    let next = taken(g, Stream::Nodes, text);
                    lemma_fed_nodes(next, rest, line + 1);
                    if all_write_nodes(rest) {
                        assert forall|i: int| 0 <= i < records.len() implies (
                        #[trigger] records[i]) is Some && node_of(records[i]->0) is Some by {
                            if i > 0 {
                                assert(records[i] == rest[i - 1]);
                            }
                        }
                        assert(nodes_of(rest).reverse() + next.nodes =~= nodes_of(
                            records,
                        ).reverse() + g.nodes) by {
                            assert(nodes_of(rest) =~= nodes_of(records).skip(1));
                        }
                    }
                    if all_write_nodes(records) {
                        assert forall|i: int| 0 <= i < rest.len() implies (#[trigger] rest[i])
                            is Some && node_of(rest[i]->0) is Some by {
                            assert(rest[i] == records[i + 1]);
                        }
                    }
                } else {
                    assert(records[0] is Some);
                }
            },
        }
    }
}

/// A graph with fresh entries is well-formed.
pub proof fn lemma_with_entries_is_wf(g: GraphView)
    ensures
        wf(with_entries(g)),
{
    let fresh = with_entries(g);
    assert(owners(fresh.adjacency) =~= g.nodes.reverse());
}

proof fn lemma_taken_edge(g: GraphView, line: Seq<char>)
    requires
        accepts(g, Stream::Edges, line),
    ensures
        taken(g, Stream::Edges, line).nodes == g.nodes,
        owners(taken(g, Stream::Edges, line).adjacency) == owners(g.adjacency),
        wf(g) ==> wf(taken(g, Stream::Edges, line)),
        forall|i: int, edge: EdgeView|
            0 <= i < g.adjacency.len() && g.adjacency[i].neighbors.contains(edge) ==> taken(
                g,
                Stream::Edges,
                line,
            ).adjacency[i].neighbors.contains(edge),
        ({
            let after = taken(g, Stream::Edges, line);
            let e = edge_of(line)->0;
            let from = g.nodes[first_where(g.nodes, with_id(e.from))];
            let to = g.nodes[first_where(g.nodes, with_id(e.to))];
            &&& after.adjacency[first_where(g.adjacency, owned_by(e.from))].neighbors.contains(
                EdgeView { weight: e.weight, target: to },
            )
            &&& after.adjacency[first_where(g.adjacency, owned_by(e.to))].neighbors.contains(
                EdgeView { weight: e.weight, target: from },
            )
        }),
{
    let e = edge_of(line)->0;
    let after = taken(g, Stream::Edges, line);
    let back = linked(g.adjacency, g.nodes, e.to, e.from, e.weight);
    let at_to = first_where(g.adjacency, owned_by(e.to));
    let at_from = first_where(g.adjacency, owned_by(e.from));
    let from = g.nodes[first_where(g.nodes, with_id(e.from))];
    let to = g.nodes[first_where(g.nodes, with_id(e.to))];
    lemma_first_where(g.adjacency, owned_by(e.to));
    lemma_first_where(g.adjacency, owned_by(e.from));
    lemma_first_where(g.nodes, with_id(e.to));
    lemma_first_where(g.nodes, with_id(e.from));
    lemma_linked_keeps_owners(g.adjacency, g.nodes, e.to, e.from, e.weight);
    lemma_same_owners_same_entries(g.adjacency, back, e.from);
    lemma_linked_keeps_owners(back, g.nodes, e.from, e.to, e.weight);
    let back_edge = EdgeView { weight: e.weight, target: from };
    let forth_edge = EdgeView { weight: e.weight, target: to };
    assert(back[at_to].neighbors[0] == back_edge);
    assert(after.adjacency[at_from].neighbors[0] == forth_edge);
    assert forall|i: int, edge: EdgeView|
        0 <= i < g.adjacency.len() && g.adjacency[i].neighbors.contains(
            edge,
        ) implies after.adjacency[i].neighbors.contains(edge) by {
        let j = choose|j: int|
            0 <= j < g.adjacency[i].neighbors.len() && g.adjacency[i].neighbors[j] == edge;
        let in_back = if i == at_to {
            j + 1
        } else {
            j
        };
        assert(back[i].neighbors[in_back] == edge);
        let in_after = if i == at_from {
            in_back + 1
        } else {
            in_back
        };
        assert(after.adjacency[i].neighbors[in_after] == edge);
    }
    assert(back[at_to].neighbors.contains(back_edge));
    if wf(g) {
        assert(g.nodes.contains(from));
        assert(g.nodes.contains(to));
        assert forall|i: int, j: int|
            0 <= i < after.adjacency.len() && 0 <= j < after.adjacency[i].neighbors.len()
            implies g.nodes.contains(#[trigger] after.adjacency[i].neighbors[j].target) by {
            let in_back = if i == at_from {
                j - 1
            } else {
                j
            };
            if i == at_from && j == 0 {
            } else {
                assert(after.adjacency[i].neighbors[j] == back[i].neighbors[in_back]);
                let in_g = if i == at_to {
                    in_back - 1
                } else {
                    in_back
                };
                if i == at_to && in_back == 0 {
                } else {
                    assert(back[i].neighbors[in_back] == g.adjacency[i].neighbors[in_g]);
                    assert(g.nodes.contains(g.adjacency[i].neighbors[in_g].target));
                }
            }
        }
    }
}

proof fn lemma_fed_edges(g: GraphView, records: Seq<Option<Seq<char>>>, line: int)
    ensures
        fed(g, Stream::Edges, records, line) matches Ok(after) ==> {
            &&& after.nodes == g.nodes
            &&& owners(after.adjacency) == owners(g.adjacency)
            &&& wf(g) ==> wf(after)
            &&& forall|i: int, edge: EdgeView|
                0 <= i < g.adjacency.len() && g.adjacency[i].neighbors.contains(edge)
                    ==> after.adjacency[i].neighbors.contains(edge)
        },
    decreases records.len(),
{
    if records.len() > 0 {
        match records[0] {
            None => {},
            Some(text) => {
                if accepts(g, Stream::Edges, text) {
                    let next = taken(g, Stream::Edges, text);
                    lemma_taken_edge(g, text);
                    lemma_fed_edges(next, records.skip(1), line + 1);
                    assert(next.adjacency.len() == owners(next.adjacency).len());
                    assert(g.adjacency.len() == owners(g.adjacency).len());
                }
            },
        }
    }
}

/// What has been read is a well-formed graph.
pub proof fn lemma_ingested_is_wf(
    nodes: Option<Seq<Option<Seq<char>>>>,
    edges: Option<Seq<Option<Seq<char>>>>,
)
    ensures
        ingested(nodes, edges) matches Ok(g) ==> wf(g),
{
    if ingested(nodes, edges) is Ok {
        let read = fed_source(empty_graph(), Stream::Nodes, nodes)->Ok_0;
        lemma_with_entries_is_wf(read);
        lemma_fed_edges(with_entries(read), popped(edges->0), 2);
    }
}

/// Every node record becomes a node with an entry. The node records are all
/// read exactly if each was delivered and has its two fields. Then the graph
/// has as many nodes, and as many entries, as there were node records, and
/// both stand in the order of the records: the first record at the head.
pub proof fn lemma_every_record_is_a_node(
    nodes: Seq<Option<Seq<char>>>,
    edges: Option<Seq<Option<Seq<char>>>>,
)
    ensures
        fed_source(empty_graph(), Stream::Nodes, Some(nodes)) is Ok <==> all_write_nodes(
            popped(nodes),
        ),
        ingested(Some(nodes), edges) matches Ok(g) ==> {
            &&& g.nodes.len() == popped(nodes).len()
            &&& g.adjacency.len() == popped(nodes).len()
            &&& g.nodes == nodes_of(popped(nodes))
            &&& owners(g.adjacency) == g.nodes
        },
{
    let records = popped(nodes);
    lemma_fed_nodes(empty_graph(), records, 2);
    if ingested(Some(nodes), edges) is Ok {
        let read = fed(empty_graph(), Stream::Nodes, records, 2)->Ok_0;
        assert(read.nodes =~= nodes_of(records).reverse());
        assert(nodes_of(records).reverse().reverse() =~= nodes_of(records));
        lemma_with_entries_is_wf(read);
        lemma_fed_edges(with_entries(read), popped(edges->0), 2);
    }
}

/// The keys of the graph are unique exactly if those of the node records
/// are: no two nodes have the same key exactly if no two node records have
/// the same first field.
pub proof fn lemma_keys_are_unique_as_records_are(
    nodes: Seq<Option<Seq<char>>>,
    edges: Option<Seq<Option<Seq<char>>>>,
)
    ensures
        ingested(Some(nodes), edges) matches Ok(g) ==> (unique_ids(g) <==> ids(
            nodes_of(popped(nodes)),
        ).no_duplicates()),
{
    lemma_every_record_is_a_node(nodes, edges);
}

proof fn lemma_fed_is_by_line(
    g: GraphView,
    stream: Stream,
    records: Seq<Option<Seq<char>>>,
    line: int,
    other: int,
)
    ensures
        fed(g, stream, records, line) is Ok <==> fed(g, stream, records, other) is Ok,
        fed(g, stream, records, line) matches Ok(after) ==> fed(g, stream, records, other) == Ok::<
            GraphView,
            IngestError,
        >(after),
    decreases records.len(),
{
    if records.len() > 0 {
        match records[0] {
            None => {},
            Some(text) => {
                if accepts(g, stream, text) {
                    lemma_fed_is_by_line(
                        taken(g, stream, text),
                        stream,
                        records.skip(1),
                        line + 1,
                        other + 1,
                    );
                }
            },
        }
    }
}

/// One more record that is taken: where the records before place `k` are
/// all taken and the graph accepts the one at `k`, the records up to and with
/// `k` are all taken, and the graph is the one after `k` was taken.
pub proof fn lemma_fed_one_more(
    g: GraphView,
    stream: Stream,
    records: Seq<Option<Seq<char>>>,
    k: int,
)
    requires
        0 <= k < records.len(),
        fed(g, stream, records.take(k), 0) is Ok,
        records[k] is Some,
        accepts(fed(g, stream, records.take(k), 0)->Ok_0, stream, records[k]->0),
    ensures
        fed(g, stream, records.take(k + 1), 0) == Ok::<GraphView, IngestError>(
            taken(fed(g, stream, records.take(k), 0)->Ok_0, stream, records[k]->0),
        ),
    decreases k,
{
    let upto = records.take(k + 1);
    assert(upto[0] == records[0]);
    if k == 0 {
        assert(records.take(0).len() == 0);
        assert(fed(g, stream, records.take(0), 0) == Ok::<GraphView, IngestError>(g));
        let next = taken(g, stream, records[0]->0);
        assert(upto.skip(1).len() == 0);
        assert(fed(next, stream, upto.skip(1), 1) == Ok::<GraphView, IngestError>(next));
    } else {
        let text = records[0]->0;
        let next = taken(g, stream, text);
        let rest = records.skip(1);
        let before = records.take(k);
        assert(before[0] == records[0]);
        assert(before.skip(1) =~= rest.take(k - 1));
        assert(upto.skip(1) =~= rest.take(k));
        assert(rest[k - 1] == records[k]);
        assert(records[0] is Some && accepts(g, stream, text));
        assert(fed(g, stream, before, 0) == fed(next, stream, rest.take(k - 1), 1));
        lemma_fed_is_by_line(next, stream, rest.take(k - 1), 1, 0);
        lemma_fed_one_more(next, stream, rest, k - 1);
        lemma_fed_is_by_line(next, stream, rest.take(k), 0, 1);
        assert(fed(g, stream, upto, 0) == fed(next, stream, rest.take(k), 1));
    }
}

/// Feeding stops at the first record that is refused. Where the records
/// before place `k` are all taken and the one at `k` was not delivered, or is
/// not accepted by the graph as it then is, the result is the error that
/// names its line, and the kind of its failure; no later record has a say.
pub proof fn lemma_feeding_stops_at_first_refusal(
    g: GraphView,
    stream: Stream,
    records: Seq<Option<Seq<char>>>,
    line: int,
    k: int,
)
    requires
        refused_at(g, stream, records, k),
    ensures
        fed(g, stream, records, line) == Err::<GraphView, IngestError>(
            refusal(stream, records, line, k),
        ),
        fed(g, stream, records, line) == fed(g, stream, records.take(k + 1), line),
    decreases k,
{
    let upto = records.take(k + 1);
    assert(upto[0] == records[0]);
    if k == 0 {
        assert(records.take(0).len() == 0);
    } else {
        let text = records[0]->0;
        assert(records.take(k)[0] == records[0]);
        assert(records.take(k).skip(1) =~= records.skip(1).take(k - 1));
        assert(upto.skip(1) =~= records.skip(1).take(k));
        let next = taken(g, stream, text);
        lemma_fed_is_by_line(next, stream, records.skip(1).take(k - 1), 1, 0);
        assert(records.skip(1)[k - 1] == records[k]);
        lemma_feeding_stops_at_first_refusal(next, stream, records.skip(1), line + 1, k - 1);
    }
}

/// A node line with fewer than two fields ends the reading with its number.
/// Where the lines before line `number` were all delivered and write nodes,
/// and line `number` was delivered and writes none, there is no graph, and
/// the error is `MalformedRecord` for the nodes with that number. Lines count
/// from 1, and line 1 is the header.
pub proof fn lemma_malformed_node_line_is_named(
    nodes: Seq<Option<Seq<char>>>,
    edges: Option<Seq<Option<Seq<char>>>>,
    number: int,
)
    requires
        2 <= number <= nodes.len(),
        forall|i: int|
            1 <= i < number - 1 ==> (#[trigger] nodes[i]) is Some && node_of(nodes[i]->0) is Some,
        nodes[number - 1] is Some,
        node_of(nodes[number - 1]->0) is None,
    ensures
        ingested(Some(nodes), edges) == Err::<GraphView, IngestError>(
            IngestError::MalformedRecord { stream: Stream::Nodes, line: number as usize },
        ),
{
    let records = popped(nodes);
    let k = number - 2;
    let before = records.take(k);
    assert forall|i: int| 0 <= i < before.len() implies (#[trigger] before[i]) is Some && node_of(
        before[i]->0,
    ) is Some by {
        assert(before[i] == nodes[i + 1]);
    }
    lemma_fed_nodes(empty_graph(), before, 0);
    assert(records[k] == nodes[number - 1]);
    lemma_feeding_stops_at_first_refusal(empty_graph(), Stream::Nodes, records, 2, k);
}

proof fn lemma_fed_edge_is_entered(
    g: GraphView,
    records: Seq<Option<Seq<char>>>,
    line: int,
    k: int,
)
    requires
        fed(g, Stream::Edges, records, line) is Ok,
        0 <= k < records.len(),
    ensures
        records[k] is Some,
        edge_of(records[k]->0) is Some,
        entered_at_both_ends(fed(g, Stream::Edges, records, line)->Ok_0, edge_of(records[k]->0)->0),
    decreases records.len(),
{
    let text = records[0]->0;
    let next = taken(g, Stream::Edges, text);
    let rest = records.skip(1);
    let after = fed(g, Stream::Edges, records, line)->Ok_0;
    lemma_taken_edge(g, text);
    lemma_fed_edges(next, rest, line + 1);
    if k == 0 {
        let e = edge_of(text)->0;
        lemma_first_where(g.nodes, with_id(e.from));
        lemma_first_where(g.nodes, with_id(e.to));
        lemma_first_where(g.adjacency, owned_by(e.from));
        lemma_first_where(g.adjacency, owned_by(e.to));
        lemma_same_owners_same_entries(g.adjacency, next.adjacency, e.from);
        lemma_same_owners_same_entries(g.adjacency, next.adjacency, e.to);
        lemma_same_owners_same_entries(next.adjacency, after.adjacency, e.from);
        lemma_same_owners_same_entries(next.adjacency, after.adjacency, e.to);
        assert(next.adjacency.len() == owners(next.adjacency).len());
        assert(g.adjacency.len() == owners(g.adjacency).len());
        assert(after.adjacency.len() == owners(after.adjacency).len());
    } else {
        assert(rest[k - 1] == records[k]);
        lemma_fed_edge_is_entered(next, rest, line + 1, k - 1);
    }
}

/// An edge is entered at both of its ends. In the graph that was read, every
/// edge record names two nodes of the graph, and the entry of each of them
/// holds an edge with the weight of the record to the other.
pub proof fn lemma_edge_is_entered_at_both_ends(
    nodes: Option<Seq<Option<Seq<char>>>>,
    edges: Seq<Option<Seq<char>>>,
    k: int,
)
    requires
        ingested(nodes, Some(edges)) is Ok,
        0 <= k < popped(edges).len(),
    ensures
        popped(edges)[k] is Some,
        edge_of(popped(edges)[k]->0) is Some,
        entered_at_both_ends(
            ingested(nodes, Some(edges))->Ok_0,
            edge_of(popped(edges)[k]->0)->0,
        ),
{
    let read = fed_source(empty_graph(), Stream::Nodes, nodes)->Ok_0;
    lemma_fed_edge_is_entered(with_entries(read), popped(edges), 2, k);
}

/// Nothing is left of a node that was taken out. No edge leads to a node
/// with its key any more; and where no two nodes had the same key, no node
/// has its key any more. Two nodes with the same key are two lines with the
/// same first field in the node records: of those, the one read first leaves
/// the nodes, and the other stays.
pub proof fn lemma_removed_node_is_gone(g: GraphView, id: Seq<char>)
    requires
        wf(g),
        has_id(g.nodes, id),
    ensures
        wf(removed(g, id)),
        forall|i: int, j: int|
            0 <= i < removed(g, id).adjacency.len() && 0 <= j < removed(
                g,
                id,
            ).adjacency[i].neighbors.len() ==> (#[trigger] removed(
                g,
                id,
            ).adjacency[i].neighbors[j]).target.id != id,
        unique_ids(g) ==> !has_id(removed(g, id).nodes, id) && found(
            removed(g, id).nodes,
            with_id(id),
        ) is None && unique_ids(removed(g, id)),
{
    let after = removed(g, id);
    let at_node = first_where(g.nodes, with_id(id));
    let at_entry = first_where(g.adjacency, owned_by(id));
    lemma_removed_is_wf(g, id);
    lemma_wf_gives_entry(g, id);
    lemma_first_where(g.nodes, with_id(id));
    lemma_first_where(g.adjacency, owned_by(id));
    assert forall|i: int, j: int|
        0 <= i < after.adjacency.len() && 0 <= j < after.adjacency[i].neighbors.len() implies (
    #[trigger] after.adjacency[i].neighbors[j]).target.id != id by {
        let origin = if i < at_entry {
            i
        } else {
            i + 1
        };
        g.adjacency[origin].neighbors.lemma_filter_pred(avoids(id), j);
    }
    if unique_ids(g) {
        lemma_first_where(after.nodes, with_id(id));
        let w = first_where(after.nodes, with_id(id));
        if w < after.nodes.len() {
            let origin = if w < at_node {
                w
            } else {
                w + 1
            };
            assert(ids(g.nodes)[origin] == id);
            assert(ids(g.nodes)[at_node] == id);
        }
        assert forall|i: int, j: int|
            0 <= i < ids(after.nodes).len() && 0 <= j < ids(after.nodes).len() && i
                != j implies ids(after.nodes)[i] != ids(after.nodes)[j] by {
            let oi = if i < at_node {
                i
            } else {
                i + 1
            };
            let oj = if j < at_node {
                j
            } else {
                j + 1
            };
            assert(ids(after.nodes)[i] == ids(g.nodes)[oi]);
            assert(ids(after.nodes)[j] == ids(g.nodes)[oj]);
        }
    }
}

proof fn lemma_missing_from(nodes: Seq<NodeView>, others: Seq<NodeView>)
    ensures
        forall|id: Seq<char>|
            ids(missing_from(nodes, others)).contains(id) <==> ids(nodes).contains(id) && !ids(
                others,
            ).contains(id),
    decreases nodes.len(),
{
    let missing = missing_from(nodes, others);
    if nodes.len() == 0 {
        assert(ids(missing) =~= Seq::empty());
    } else {
        let rest = nodes.skip(1);
        let below = missing_from(rest, others);
        lemma_missing_from(rest, others);
        lemma_has_id_is_contains(others, nodes[0].id);
        assert forall|id: Seq<char>|
            ids(missing).contains(id) <==> ids(nodes).contains(id) && !ids(others).contains(
                id,
            ) by {
            if ids(nodes).contains(id) {
                let i = choose|i: int| 0 <= i < ids(nodes).len() && ids(nodes)[i] == id;
                if i > 0 {
                    assert(ids(rest)[i - 1] == id);
                }
            }
            if ids(rest).contains(id) {
                let i = choose|i: int| 0 <= i < ids(rest).len() && ids(rest)[i] == id;
                assert(ids(nodes)[i + 1] == id);
            }
            if has_id(others, nodes[0].id) {
                assert(missing == below);
            } else {
                assert(ids(missing) =~= ids(below).push(nodes[0].id));
                assert(ids(missing)[ids(below).len() as int] == nodes[0].id);
                if ids(below).contains(id) {
                    let i = choose|i: int| 0 <= i < ids(below).len() && ids(below)[i] == id;
                    assert(ids(missing)[i] == id);
                }
                assert(ids(nodes)[0] == nodes[0].id);
            }
        }
    }
}

/// The difference of two graphs is the difference of their keys. The keys of
/// the nodes that `others` lacks are the keys of `nodes` that are no keys of
/// `others`; and where both have the same keys, neither lacks a node of the
/// other.
pub proof fn lemma_diff_is_difference_of_keys(nodes: Seq<NodeView>, others: Seq<NodeView>)
    ensures
        ids(missing_from(nodes, others)).to_set() == ids(nodes).to_set().difference(
            ids(others).to_set(),
        ),
        ids(nodes).to_set() == ids(others).to_set() ==> missing_from(nodes, others).len() == 0
            && missing_from(others, nodes).len() == 0,
{
    lemma_missing_from(nodes, others);
    lemma_missing_from(others, nodes);
    assert(ids(missing_from(nodes, others)).to_set() =~= ids(nodes).to_set().difference(
        ids(others).to_set(),
    ));
    if ids(nodes).to_set() == ids(others).to_set() {
        let there = missing_from(nodes, others);
        let back = missing_from(others, nodes);
        if there.len() > 0 {
            let id = ids(there)[0];
            assert(ids(there).contains(id));
            assert(ids(nodes).to_set().contains(id));
            assert(ids(others).to_set().contains(id));
        }
        if back.len() > 0 {
            let id = ids(back)[0];
            assert(ids(back).contains(id));
            assert(ids(others).to_set().contains(id));
            assert(ids(nodes).to_set().contains(id));
        }
    }
}

} // verus!
