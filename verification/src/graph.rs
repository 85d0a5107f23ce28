//! The graph: every node once in a list of nodes, and an adjacency list with
//! one entry per node.
use vstd::prelude::*;
use vstd::string::*;
use std::rc::Rc;
use crate::ingest::{parse_csv_file, Draft};
use crate::laws::{lemma_ingested_is_wf, lemma_removed_node_is_gone, lemma_wf_gives_entry};
use crate::list::{first_where, lemma_first_where, lemma_scan_of_images, pushed, scan_stops_at, List};
use crate::model::{
    arrow, arrows, entry_line, found, has_id, ingested, missing_from, names_line, owned_by,
    removed, rendered, stripped, unique_ids, wf, with_id, with_name, EntryView, GraphView,
};
use crate::record::{
    edge_views, entry_views, find_by_id, names_of, node_views, share, GraphListElement, GraphNode,
};
use crate::source::{IngestError, Source, Stream};

verus! {

/// An undirected graph. `nodes` holds every node once; `adjacency_list_repr`
/// holds, for every node, the entry with the edges that leave it.
pub struct Graph {
    nodes: List<Rc<GraphNode>>,
    adjacency_list_repr: List<GraphListElement>,
}

/// How two graphs differ in their nodes.
pub struct Diff {
    /// The nodes of the other graph whose key this graph lacks.
    pub dead: List<Rc<GraphNode>>,
    /// The nodes of this graph whose key the other graph lacks.
    pub new: List<Rc<GraphNode>>,
}

impl View for Graph {
    type V = GraphView;

    closed spec fn view(&self) -> GraphView {
        GraphView {
            nodes: node_views(self.nodes@),
            adjacency: entry_views(self.adjacency_list_repr@),
        }
    }
}

impl Graph {
    /// Well-formedness: see [`wf`].
    pub open spec fn wf(&self) -> bool {
        wf(self@)
    }

    /// The nodes, in the order in which they were read: the one read first is
    /// at the head.
    pub fn nodes(&self) -> (nodes: &List<Rc<GraphNode>>)
        ensures
            node_views(nodes@) == self@.nodes,
    {
        &self.nodes
    }

    /// The entries, in the order of the nodes.
    pub fn adjacency(&self) -> (entries: &List<GraphListElement>)
        ensures
            entry_views(entries@) == self@.adjacency,
    {
        &self.adjacency_list_repr
    }

    /// The first node with the key `id`, shared with the caller; `None` if no
    /// node has that key.
    pub fn lookup(&self, id: &str) -> (node: Option<Rc<GraphNode>>)
        ensures
            node is Some <==> has_id(self@.nodes, id@),
            node matches Some(n) ==> Some(n@) == found(self@.nodes, with_id(id@)) && n@.id == id@,
    {
        let key = id.to_owned();
        proof {
            lemma_first_where(self@.nodes, with_id(id@));
        }
        match find_by_id(&self.nodes, &key) {
            None => None,
            Some(node) => Some(share(node)),
        }
    }

    /// The first node with the label `name`, shared with the caller; `None`
    /// if no node has that label.
    pub fn lookup_by_name(&self, name: &str) -> (node: Option<Rc<GraphNode>>)
        ensures
            node is Some <==> found(self@.nodes, with_name(name@)) is Some,
            node matches Some(n) ==> {
                &&& Some(n@) == found(self@.nodes, with_name(name@))
                &&& n@.name == name@
                &&& has_id(self@.nodes, n@.id)
            },
    {
        let label = name.to_owned();
        proof {
            lemma_first_where(self@.nodes, with_name(name@));
            let at = first_where(self@.nodes, with_name(name@));
            if at < self@.nodes.len() {
                lemma_first_where(self@.nodes, with_id(self@.nodes[at].id));
                if !has_id(self@.nodes, self@.nodes[at].id) {
                    assert(!with_id(self@.nodes[at].id)(self@.nodes[at]));
                }
            }
        }
        let has_label = |node: &Rc<GraphNode>| -> (same: bool)
            ensures
                same == (node@.name == label@),
        {
            *node.name() == label
        };
        let it = self.nodes.seek_f(has_label);
        proof {
            lemma_scan_of_images(
                has_label,
                self.nodes@,
                self.nodes@.len() - it@.len(),
                |node: Rc<GraphNode>| node@,
                with_name(name@),
            );
        }
        match it.peek() {
            None => None,
            Some(node) => Some(share(node)),
        }
    }

    /// The labels of the nodes, in the order of the node list, with `, `
    /// between one and the next.
    pub fn fmt_nodes(&self) -> (line: String)
        ensures
            line@ == names_line(self@.nodes),
    {
        names_of(&self.nodes)
    }

    /// One line for each entry, in the order of the adjacency list: the key
    /// of the node, a colon, and ` -> ` with the key of the neighbor for each
    /// of its edges, in the order in which the edges were entered.
    pub fn render(&self) -> (text: String)
        ensures
            text@ == rendered(self@.adjacency),
    {
        let mut buff = String::new();
        let mut it = self.adjacency_list_repr.iter();
        let ghost all = entry_views(self.adjacency_list_repr@);
        assert(buff@ + rendered(all) =~= rendered(all));
        loop
            invariant
                rendered(all) == buff@ + rendered(entry_views(it@)),
            ensures
                rendered(all) == buff@,
            decreases it@.len(),
        {
            let ghost ahead = entry_views(it@);
            let ghost written = buff@;
            match it.next() {
                None => {
                    assert(written + rendered(ahead) =~= written);
                    break;
                },
                Some(entry) => {
                    let neighbors = arrows_of(entry);
                    buff.append(entry.owner().id().as_str());
                    buff.append(":");
                    buff.append(neighbors.as_str());
                    buff.append("\n");
                    proof {
                        reveal_strlit(":");
                        reveal_strlit("\n");
                        assert(":"@ =~= seq![':']);
                        assert("\n"@ =~= seq!['\n']);
                        assert(entry_views(it@) =~= ahead.skip(1));
                        assert(buff@ =~= written + entry_line(ahead[0]));
                        assert(written + (entry_line(ahead[0]) + rendered(ahead.skip(1))) =~= buff@
                            + rendered(ahead.skip(1)));
                    }
                },
            }
        }
        buff
    }

    /// Takes the node with the key of `t` out of the graph: the first entry
    /// that such a node owns, every edge that leads to such a node, and the
    /// first such node, which is returned.
    pub fn remove(&mut self, t: Rc<GraphNode>) -> (node: Rc<GraphNode>)
        requires
            old(self).wf(),
            has_id(old(self)@.nodes, t@.id),
        ensures
            final(self)@ == removed(old(self)@, t@.id),
            Some(node@) == found(old(self)@.nodes, with_id(t@.id)),
            final(self).wf(),
            unique_ids(old(self)@) ==> unique_ids(final(self)@),
    {
        let ghost before = self@;
        let ghost entries = self.adjacency_list_repr@;
        let ghost nodes = self.nodes@;
        let id = t.id();
        let owned = |entry: &GraphListElement| -> (same: bool)
            ensures
                same == (entry@.owner.id == id@),
        {
            *entry.owner().id() == *id
        };
        let entry = self.adjacency_list_repr.remove_f(owned);
        proof {
            lemma_wf_gives_entry(before, id@);
            if entry is None {
                lemma_scan_of_images(
                    owned,
                    entries,
                    entries.len() as int,
                    |entry: GraphListElement| entry@,
                    owned_by(id@),
                );
            } else {
                let k = choose|k: int|
                    {
                        &&& 0 <= k < entries.len()
                        &&& #[trigger] scan_stops_at(owned, entries, k)
                        &&& entry->0 == entries[k]
                        &&& self.adjacency_list_repr@ == entries.remove(k)
                    };
                lemma_scan_of_images(
                    owned,
                    entries,
                    k,
                    |entry: GraphListElement| entry@,
                    owned_by(id@),
                );
                assert(entry_views(entries.remove(k)) =~= entry_views(entries).remove(k));
            }
        }
        entry.expect("Something went wrong at node deleting");
        strip_all(&mut self.adjacency_list_repr, id);
        let has_key = |node: &Rc<GraphNode>| -> (same: bool)
            ensures
                same == (node@.id == id@),
        {
            *node.id() == *id
        };
        let node = self.nodes.remove_f(has_key);
        proof {
            if node is None {
                lemma_scan_of_images(
                    has_key,
                    nodes,
                    nodes.len() as int,
                    |node: Rc<GraphNode>| node@,
                    with_id(id@),
                );
            } else {
                let k = choose|k: int|
                    {
                        &&& 0 <= k < nodes.len()
                        &&& #[trigger] scan_stops_at(has_key, nodes, k)
                        &&& node->0 == nodes[k]
                        &&& self.nodes@ == nodes.remove(k)
                    };
                lemma_scan_of_images(
                    has_key,
                    nodes,
                    k,
                    |node: Rc<GraphNode>| node@,
                    with_id(id@),
                );
                assert(node_views(nodes.remove(k)) =~= node_views(nodes).remove(k));
            }
            lemma_removed_node_is_gone(before, id@);
        }
        node.expect("Something went wrong at node deleting")
    }

    /// The nodes whose key `other` lacks, each found by a scan of the nodes
    /// of `other`. They come in the order of a list on which they were
    /// pushed: the first one found is at the tail.
    fn nodes_missing_from(&self, other: &Graph) -> (missing: List<Rc<GraphNode>>)
        ensures
            node_views(missing@) == missing_from(self@.nodes, other@.nodes),
    {
        let mut missing: List<Rc<GraphNode>> = List::new();
        let mut it = self.nodes.iter();
        let ghost all = node_views(self.nodes@);
        let ghost others = other@.nodes;
        assert(missing_from(all, others) + node_views(missing@) =~= missing_from(all, others));
        loop
            invariant
                others == other@.nodes,
                missing_from(all, others) == missing_from(node_views(it@), others) + node_views(
                    missing@,
                ),
            ensures
                missing_from(all, others) == node_views(missing@),
            decreases it@.len(),
        {
            let ghost ahead = node_views(it@);
            let ghost so_far = node_views(missing@);
            match it.next() {
                None => {
                    assert(missing_from(ahead, others) + so_far =~= so_far);
                    break;
                },
                Some(node) => {
                    assert(node_views(it@) =~= ahead.skip(1));
                    if find_by_id(&other.nodes, node.id()).is_none() {
                        missing.push(share(node));
                        proof {
                            assert(node_views(missing@) =~= pushed(so_far, ahead[0]));
                            assert(missing_from(ahead.skip(1), others).push(ahead[0]) + so_far
                                =~= missing_from(ahead.skip(1), others) + pushed(
                                so_far,
                                ahead[0],
                            ));
                        }
                    }
                },
            }
        }
        missing
    }

    /// Compares the nodes of two graphs by key: which nodes of `other` this
    /// graph lacks, and which nodes of this graph `other` lacks.
    pub fn diff(&self, other: &Graph) -> (diff: Diff)
        ensures
            node_views(diff.dead@) == missing_from(other@.nodes, self@.nodes),
            node_views(diff.new@) == missing_from(self@.nodes, other@.nodes),
    {
        Diff { dead: other.nodes_missing_from(self), new: self.nodes_missing_from(other) }
    }

    /// Reads a graph from its two inputs: the nodes first, then the edges.
    /// Every node gets an entry, and every edge is entered at both of its
    /// ends. The first delivery of each input is its header and is passed
    /// over. The first record that cannot be read or taken ends the reading:
    /// then there is no graph, and the error names the input and the line.
    pub fn new_undirected(nodes_source: &Source, edges_source: &Source) -> (built: Result<
        Graph,
        IngestError,
    >)
        ensures
            match built {
                Ok(graph) => ingested(nodes_source@, edges_source@) == Ok::<GraphView, IngestError>(
                    graph@,
                ) && graph.wf(),
                Err(error) => ingested(nodes_source@, edges_source@) == Err::<
                    GraphView,
                    IngestError,
                >(error),
            },
    {
        let mut draft = Draft::new();
        match parse_csv_file(nodes_source, Stream::Nodes, &mut draft) {
            Err(error) => {
                return Err(error);
            },
            Ok(()) => {},
        }
        draft.make_entries();
        match parse_csv_file(edges_source, Stream::Edges, &mut draft) {
            Err(error) => {
                return Err(error);
            },
            Ok(()) => {},
        }
        proof {
            lemma_ingested_is_wf(nodes_source@, edges_source@);
        }
        let (nodes, adjacency_list_repr) = draft.into_lists();
        Ok(Graph { nodes, adjacency_list_repr })
    }
}

/// The arrows of one entry: ` -> ` and the key of the neighbor for each edge,
/// the oldest edge first.
fn arrows_of(entry: &GraphListElement) -> (text: String)
    ensures
        text@ == arrows(entry@.neighbors),
{
    let mut text = String::new();
    let mut it = entry.neighbors().iter();
    let ghost all = entry@.neighbors;
    assert(arrows(all) + text@ =~= arrows(all));
    loop
        invariant
            arrows(all) == arrows(edge_views(it@)) + text@,
        ensures
            arrows(all) == text@,
        decreases it@.len(),
    {
        let ghost ahead = edge_views(it@);
        let ghost written = text@;
        match it.next() {
            None => {
                assert(arrows(ahead) + written =~= written);
                break;
            },
            Some(edge) => {
                let mut newer = " -> ".to_owned();
                newer.append(edge.target().id().as_str());
                newer.append(text.as_str());
                text = newer;
                proof {
                    reveal_strlit(" -> ");
                    assert(" -> "@ =~= arrow());
                    assert(edge_views(it@) =~= ahead.skip(1));
                    assert(arrows(ahead.skip(1)) + arrow() + ahead[0].target.id + written
                        =~= arrows(ahead.skip(1)) + text@);
                }
            },
        }
    }
    text
}

/// Takes every edge that leads to a node with the key `id` out of every one
/// of `entries`.
fn strip_all(entries: &mut List<GraphListElement>, id: &String)
    ensures
        entry_views(final(entries)@) == entry_views(old(entries)@).map_values(
            |entry: EntryView| stripped(entry, id@),
        ),
{
    let ghost all = entries@;
    let ghost strip = |entry: EntryView| stripped(entry, id@);
    let ghost mut done: Seq<EntryView> = Seq::empty();
    let mut it = entries.iter_mut();
    assert(all.take(0) =~= Seq::empty());
    assert(done =~= entry_views(all.take(0)).map_values(strip));
    loop
        invariant
            strip == |entry: EntryView| stripped(entry, id@),
            it@.len() <= all.len(),
            it@ == all.skip(all.len() - it@.len()),
            done == entry_views(all.take(all.len() - it@.len())).map_values(strip),
            it.rest is Some ==> entry_views(after_borrow(*entries)@) == done + entry_views(
                final(it.rest->0)@,
            ),
            it.rest is None ==> entry_views(after_borrow(*entries)@) == done,
        ensures
            it.rest is None,
            done == entry_views(all).map_values(strip),
        decreases it@.len(),
    {
        let ghost k = all.len() - it@.len();
        match it.next() {
            None => {
                proof {
                    assert(all.take(all.len() as int) =~= all);
                }
                break;
            },
            Some(entry) => {
                assert(*entry == all[k]);
                entry.disconnect(id);
                proof {
                    assert(it@ =~= all.skip(k + 1));
                    assert(entry_views(all.take(k + 1)).map_values(strip) =~= done.push(entry@));
                    done = done.push(entry@);
                }
            },
        }
    }
}

} // verus!
