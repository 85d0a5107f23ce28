//! Reading a graph: the draft that takes the records, and the loop that
//! feeds them to it.
//!
//! A [`Draft`] is a graph that is not finished: first it takes node records,
//! then its entries are made, then it takes edge records.
use vstd::prelude::*;
use std::rc::Rc;
use crate::laws::{lemma_fed_one_more, lemma_linked_keeps_owners, lemma_same_owners_same_entries};
use crate::list::{first_where, lemma_scan_of_images, popped, pushed, List};
use crate::model::{
    accepts, empty_graph, fed, fed_source, has_owner, lone, owned_by, refused_at, taken,
    with_entries, EdgeView, EntryView, GraphView, NodeView,
};
use crate::record::{
    entry_views, find_by_id, node_views, share, Edge, EdgeRecord, GraphListElement, GraphNode,
};
use crate::source::{IngestError, Line, Source, Stream};

verus! {

/// A graph while it is read. Nothing is required of it: a draft may hold
/// nodes without entries.
pub struct Draft {
    nodes: List<Rc<GraphNode>>,
    adjacency: List<GraphListElement>,
}

impl View for Draft {
    type V = GraphView;

    closed spec fn view(&self) -> GraphView {
        GraphView { nodes: node_views(self.nodes@), adjacency: entry_views(self.adjacency@) }
    }
}

impl Draft {
    /// A draft without nodes.
    pub fn new() -> (draft: Self)
        ensures
            draft@ == empty_graph(),
    {
        let draft = Draft { nodes: List::new(), adjacency: List::new() };
        assert(draft@ =~= empty_graph());
        draft
    }

    /// Whether a node with the key `id` has an entry.
    fn has_entry(&self, id: &String) -> (has: bool)
        ensures
            has == has_owner(self@.adjacency, id@),
    {
        let owned = |entry: &GraphListElement| -> (same: bool)
            ensures
                same == (entry@.owner.id == id@),
        {
            *entry.owner().id() == *id
        };
        let it = self.adjacency.seek_f(owned);
        proof {
            lemma_scan_of_images(
                owned,
                self.adjacency@,
                self.adjacency@.len() - it@.len(),
                |entry: GraphListElement| entry@,
                owned_by(id@),
            );
        }
        it.peek().is_some()
    }

    /// Puts an edge to `target` in front of the edges of the first entry that
    /// a node with the key `owner` owns.
    fn link(&mut self, owner: &String, target: Rc<GraphNode>, weight: Option<i32>)
        requires
            has_owner(old(self)@.adjacency, owner@),
        ensures
            final(self)@.nodes == old(self)@.nodes,
            final(self)@.adjacency == ({
                let adjacency = old(self)@.adjacency;
                let at = first_where(adjacency, owned_by(owner@));
                adjacency.update(
                    at,
                    EntryView {
                        owner: adjacency[at].owner,
                        neighbors: pushed(
                            adjacency[at].neighbors,
                            EdgeView { weight, target: target@ },
                        ),
                    },
                )
            }),
    {
        let ghost entries = self.adjacency@;
        let owned = |entry: &GraphListElement| -> (same: bool)
            ensures
                same == (entry@.owner.id == owner@),
        {
            *entry.owner().id() == *owner
        };
        let mut it = self.adjacency.seek_mut_f(owned);
        let ghost at = entries.len() - it@.len();
        proof {
            lemma_scan_of_images(
                owned,
                entries,
                at,
                |entry: GraphListElement| entry@,
                owned_by(owner@),
            );
        }
        match it.peek_mut() {
            None => {},
            Some(entry) => {
                entry.connect(Edge::new(weight, target));
            },
        }
        proof {
            let after = self.adjacency@;
            assert(after.len() == entries.len());
            assert(entry_views(after) =~= entry_views(entries).update(at, after[at]@));
        }
    }

    /// Takes the node record `line`: puts the node that it writes in front of
    /// the nodes. A line that writes no node changes nothing.
    pub fn take_node(&mut self, line: &str) -> (ok: bool)
        ensures
            ok == accepts(old(self)@, Stream::Nodes, line@),
            ok ==> final(self)@ == taken(old(self)@, Stream::Nodes, line@),
            !ok ==> final(self)@ == old(self)@,
    {
        match GraphNode::parse(line) {
            None => false,
            Some(node) => {
                self.nodes.push(Rc::new(node));
                assert(node_views(self.nodes@) =~= pushed(node_views(old(self).nodes@), node@));
                true
            },
        }
    }

    /// Takes the edge record `line`: links its two ends in both directions.
    /// A line that writes no edge, or names an end that is not known, changes
    /// nothing.
    pub fn take_edge(&mut self, line: &str) -> (ok: bool)
        ensures
            ok == accepts(old(self)@, Stream::Edges, line@),
            ok ==> final(self)@ == taken(old(self)@, Stream::Edges, line@),
            !ok ==> final(self)@ == old(self)@,
    {
        let record = match EdgeRecord::parse(line) {
            None => {
                return false;
            },
            Some(record) => record,
        };
        if !self.has_entry(record.to()) {
            return false;
        }
        let from = match find_by_id(&self.nodes, record.from()) {
            None => {
                return false;
            },
            Some(node) => share(node),
        };
        if !self.has_entry(record.from()) {
            return false;
        }
        let to = match find_by_id(&self.nodes, record.to()) {
            None => {
                return false;
            },
            Some(node) => share(node),
        };
        self.link(record.to(), from, record.weight());
        proof {
            lemma_linked_keeps_owners(
                old(self)@.adjacency,
                old(self)@.nodes,
                record@.to,
                record@.from,
                record@.weight,
            );
            lemma_same_owners_same_entries(
                old(self)@.adjacency,
                self@.adjacency,
                record@.from,
            );
        }
        self.link(record.from(), to, record.weight());
        true
    }

    /// Ends the reading of nodes: turns the nodes round, so that they stand in
    /// the order in which they were read, and gives every node a fresh entry
    /// without edges, in the same order.
    pub fn make_entries(&mut self)
        ensures
            final(self)@ == with_entries(old(self)@),
    {
        let mut read: List<Rc<GraphNode>> = List::new();
        core::mem::swap(&mut read, &mut self.nodes);
        self.adjacency = List::new();
        let ghost all = read@;
        assert(all.take(0) =~= Seq::empty());
        assert(node_views(self.nodes@) =~= node_views(all.take(0)).reverse());
        assert(entry_views(self.adjacency@) =~= node_views(all.take(0)).reverse().map_values(
            |node: NodeView| lone(node),
        ));
        loop
            invariant
                read@.len() <= all.len(),
                read@ == all.skip(all.len() - read@.len()),
                node_views(self.nodes@) == node_views(all.take(all.len() - read@.len())).reverse(),
                entry_views(self.adjacency@) == node_views(
                    all.take(all.len() - read@.len()),
                ).reverse().map_values(|node: NodeView| lone(node)),
            ensures
                read@.len() == 0,
            decreases read@.len(),
        {
            let ghost done = all.len() - read@.len();
            let ghost nodes = self.nodes@;
            let ghost entries = self.adjacency@;
            match read.pop() {
                None => {
                    break;
                },
                Some(node) => {
                    assert(node == all[done]);
                    self.adjacency.push(GraphListElement::new(share(&node)));
                    self.nodes.push(node);
                    proof {
                        assert(read@ =~= all.skip(done + 1));
                        let fresh = |node: NodeView| lone(node);
                        let turned = node_views(all.take(done)).reverse();
                        assert(node_views(all.take(done + 1)).reverse() =~= pushed(
                            turned,
                            all[done]@,
                        ));
                        assert(node_views(self.nodes@) =~= pushed(node_views(nodes), all[done]@));
                        assert(entry_views(self.adjacency@) =~= pushed(
                            entry_views(entries),
                            lone(all[done]@),
                        ));
                        assert(pushed(turned, all[done]@).map_values(fresh) =~= pushed(
                            turned.map_values(fresh),
                            lone(all[done]@),
                        ));
                    }
                },
            }
        }
        proof {
            assert(all.take(all.len() as int) =~= all);
        }
    }

    /// The two lists of the draft.
    pub(crate) fn into_lists(self) -> (lists: (List<Rc<GraphNode>>, List<GraphListElement>))
        ensures
            node_views(lists.0@) == self@.nodes,
            entry_views(lists.1@) == self@.adjacency,
    {
        (self.nodes, self.adjacency)
    }
}

/// Feeds the records of `source` to `draft`, one by one from line 2 on, as
/// records of `stream`. It stops at the first record that the source could not
/// deliver or that the draft does not take, with the error that names it, and
/// looks at no record behind that one: the draft then holds what it took
/// before.
pub fn parse_csv_file(source: &Source, stream: Stream, draft: &mut Draft) -> (done: Result<
    (),
    IngestError,
>)
    ensures
        match done {
            Ok(()) => fed_source(old(draft)@, stream, source@) == Ok::<GraphView, IngestError>(
                final(draft)@,
            ),
            Err(error) => {
                &&& fed_source(old(draft)@, stream, source@) == Err::<GraphView, IngestError>(
                    error,
                )
                &&& source@ is None ==> final(draft)@ == old(draft)@
                &&& source@ matches Some(lines) ==> {
                    &&& refused_at(old(draft)@, stream, popped(lines), error.line_number() - 2)
                    &&& fed(
                        old(draft)@,
                        stream,
                        popped(lines).take(error.line_number() - 2),
                        0,
                    ) == Ok::<GraphView, IngestError>(final(draft)@)
                }
            },
        },
{
    let lines = match source {
        Source::Missing => {
            return Err(IngestError::FileNotFound { stream });
        },
        Source::Opened(lines) => lines,
    };
    let ghost records = popped(source@->0);
    let ghost start = draft@;
    let mut line_counter: usize = 1;
    assert(records.skip(0) =~= records);
    assert(records.take(0).len() == 0);
    while line_counter < lines.len()
        invariant
            source@ == Some(lines@.map_values(|line: Line| line@)),
            records == popped(source@->0),
            start == old(draft)@,
            1 <= line_counter,
            lines.len() > 0 ==> line_counter <= lines.len() && records.len() == lines.len() - 1,
            lines.len() == 0 ==> line_counter == 1 && records.len() == 0,
            fed(start, stream, records, 2) == fed(
                draft@,
                stream,
                records.skip(line_counter - 1),
                line_counter + 1,
            ),
            fed(start, stream, records.take(line_counter - 1), 0) == Ok::<GraphView, IngestError>(
                draft@,
            ),
        decreases lines.len() - line_counter,
    {
        let ghost at = line_counter - 1;
        let ghost rest = records.skip(at);
        let ghost before = draft@;
        proof {
            assert(rest[0] == lines@[line_counter as int]@);
            assert(rest[0] == records[at]);
            assert(rest.skip(1) =~= records.skip(line_counter as int));
        }
        let line = &lines[line_counter];
        line_counter = line_counter + 1;
        match line {
            Line::Unreadable => {
                return Err(IngestError::LineReadFailure { stream, line: line_counter });
            },
            Line::Text(text) => {
                let taken = match stream {
                    Stream::Nodes => draft.take_node(text.as_str()),
                    Stream::Edges => draft.take_edge(text.as_str()),
                };
                if !taken {
                    return Err(IngestError::MalformedRecord { stream, line: line_counter });
                }
                proof {
                    lemma_fed_one_more(start, stream, records, at);
                }
            },
        }
    }
    proof {
        let rest = records.skip(line_counter - 1);
        assert(rest.len() == 0);
        assert(fed(draft@, stream, rest, line_counter + 1) == Ok::<GraphView, IngestError>(draft@));
    }
    Ok(())
}

} // verus!
