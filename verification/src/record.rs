//! The records of a graph: nodes, edges, and the entry that holds the edges
//! of one node.
use vstd::prelude::*;
use std::rc::Rc;
use vstd::string::*;
use crate::list::{lemma_scan_of_images, pushed, scan_stops_at, List};
use crate::model::{
    avoids, comma, edge_of, found, has_id, lone, more_names, names_line, node_of, stripped,
    with_id, EdgeRecordView, EdgeView, EntryView, NodeView,
};
use crate::text::{parse_i32, split_fields, texts, trim};

verus! {

/// A node of the graph. Its key and its label never change.
pub struct GraphNode {
    name: String,
    id: String,
}

/// One direction of a relationship: a weight, if the record gave one, and the
/// node it leads to, which it shares with the graph.
pub struct Edge {
    weight: Option<i32>,
    node_ptr: Rc<GraphNode>,
}

/// The entry of one node in the adjacency list: the node, and the edges that
/// leave it.
pub struct GraphListElement {
    node_ptr: Rc<GraphNode>,
    neighborhoods: List<Edge>,
}

/// An edge record as it was read: the keys of its two ends and its weight.
pub struct EdgeRecord {
    from: String,
    to: String,
    weight: Option<i32>,
}

impl View for GraphNode {
    type V = NodeView;

    closed spec fn view(&self) -> NodeView {
        NodeView { id: self.id@, name: self.name@ }
    }
}

impl View for Edge {
    type V = EdgeView;

    closed spec fn view(&self) -> EdgeView {
        EdgeView { weight: self.weight, target: self.node_ptr@ }
    }
}

impl View for EdgeRecord {
    type V = EdgeRecordView;

    closed spec fn view(&self) -> EdgeRecordView {
        EdgeRecordView { from: self.from@, to: self.to@, weight: self.weight }
    }
}

/// What each of `edges` says.
pub open spec fn edge_views(edges: Seq<Edge>) -> Seq<EdgeView> {
    edges.map_values(|edge: Edge| edge@)
}

impl View for GraphListElement {
    type V = EntryView;

    closed spec fn view(&self) -> EntryView {
        EntryView { owner: self.node_ptr@, neighbors: edge_views(self.neighborhoods@) }
    }
}

/// What each of `nodes` is.
pub open spec fn node_views(nodes: Seq<Rc<GraphNode>>) -> Seq<NodeView> {
    nodes.map_values(|node: Rc<GraphNode>| node@)
}

/// What each of `entries` is.
pub open spec fn entry_views(entries: Seq<GraphListElement>) -> Seq<EntryView> {
    entries.map_values(|entry: GraphListElement| entry@)
}

/// `Rc::clone`: one more handle to the value that `shared` points to. Nothing
/// is proved of it here: the contract takes from the documentation of `Rc`
/// that the new handle points to the same value, which in specifications
/// makes the two handles equal.
#[verifier::external_body]
pub(crate) fn share<T>(shared: &Rc<T>) -> (other: Rc<T>)
    ensures
        other == *shared,
{
    Rc::clone(shared)
}

impl GraphNode {
    /// A node with the key `id` and the label `name`.
    pub fn new(id: String, name: String) -> (node: Self)
        ensures
            node@ == (NodeView { id: id@, name: name@ }),
    {
        GraphNode { name, id }
    }

    /// The key.
    pub fn id(&self) -> (id: &String)
        ensures
            id@ == self@.id,
    {
        &self.id
    }

    /// The label.
    pub fn name(&self) -> (name: &String)
        ensures
            name@ == self@.name,
    {
        &self.name
    }

    /// The node that the record `line` writes: its first field is the key,
    /// its second the label. `None` if the line has fewer than two fields.
    pub fn parse(line: &str) -> (node: Option<GraphNode>)
        ensures
            node is Some <==> node_of(line@) is Some,
            node matches Some(n) ==> n@ == node_of(line@)->0,
    {
        let mut fields = split_fields(trim(line), ',');
        if fields.len() < 2 {
            return None;
        }
        let ghost all = texts(fields@);
        let name = fields.swap_remove(1);
        let id = fields.swap_remove(0);
        assert(name@ == all[1] && id@ == all[0]);
        Some(GraphNode { name, id })
    }
}

impl Edge {
    /// An edge to `node_ptr`.
    pub fn new(weight: Option<i32>, node_ptr: Rc<GraphNode>) -> (edge: Self)
        ensures
            edge@ == (EdgeView { weight, target: node_ptr@ }),
    {
        Edge { weight, node_ptr }
    }

    /// The weight, if the record gave one.
    pub fn weight(&self) -> (weight: Option<i32>)
        ensures
            weight == self@.weight,
    {
        self.weight
    }

    /// The node that the edge leads to.
    pub fn target(&self) -> (node: &Rc<GraphNode>)
        ensures
            node@ == self@.target,
    {
        &self.node_ptr
    }
}

impl EdgeRecord {
    /// The key of the first end.
    pub fn from(&self) -> (id: &String)
        ensures
            id@ == self@.from,
    {
        &self.from
    }

    /// The key of the second end.
    pub fn to(&self) -> (id: &String)
        ensures
            id@ == self@.to,
    {
        &self.to
    }

    /// The weight, if the record gave one.
    pub fn weight(&self) -> (weight: Option<i32>)
        ensures
            weight == self@.weight,
    {
        self.weight
    }

    /// The edge that the record `line` writes: its first two fields are the
    /// keys of the ends, its third is the weight, or no weight if it is no
    /// integer. `None` if the line has fewer than three fields.
    pub fn parse(line: &str) -> (record: Option<EdgeRecord>)
        ensures
            record is Some <==> edge_of(line@) is Some,
            record matches Some(r) ==> r@ == edge_of(line@)->0,
    {
        let mut fields = split_fields(trim(line), ',');
        if fields.len() < 3 {
            return None;
        }
        let ghost all = texts(fields@);
        let weight = parse_i32(fields[2].as_str());
        let to = fields.swap_remove(1);
        let from = fields.swap_remove(0);
        assert(to@ == all[1] && from@ == all[0]);
        Some(EdgeRecord { from, to, weight })
    }
}

impl GraphListElement {
    /// The entry of `node_ptr`, without edges.
    pub fn new(node_ptr: Rc<GraphNode>) -> (entry: Self)
        ensures
            entry@ == lone(node_ptr@),
    {
        let entry = Self { node_ptr, neighborhoods: List::new() };
        assert(entry@.neighbors =~= Seq::empty());
        entry
    }

    /// The node that the entry belongs to.
    pub fn owner(&self) -> (node: &Rc<GraphNode>)
        ensures
            node@ == self@.owner,
    {
        &self.node_ptr
    }

    /// The edges that leave the node, the newest first.
    pub fn neighbors(&self) -> (edges: &List<Edge>)
        ensures
            edge_views(edges@) == self@.neighbors,
    {
        &self.neighborhoods
    }

    /// Puts `edge` in front of the edges.
    pub fn connect(&mut self, edge: Edge)
        ensures
            final(self)@ == (EntryView {
                owner: old(self)@.owner,
                neighbors: pushed(old(self)@.neighbors, edge@),
            }),
    {
        self.neighborhoods.push(edge);
        assert(edge_views(self.neighborhoods@) =~= pushed(
            edge_views(old(self).neighborhoods@),
            edge@,
        ));
    }

    /// Takes out every edge that leads to a node with the key `id`.
    pub fn disconnect(&mut self, id: &String)
        ensures
            final(self)@ == stripped(old(self)@, id@),
    {
        let ghost keep = avoids(id@);
        let ghost start = edge_views(self.neighborhoods@);
        loop
            invariant
                self.node_ptr == old(self).node_ptr,
                keep == avoids(id@),
                start == edge_views(old(self).neighborhoods@),
                edge_views(self.neighborhoods@).filter(keep) == start.filter(keep),
            ensures
                edge_views(self.neighborhoods@) == start.filter(keep),
            decreases self.neighborhoods@.len(),
        {
            let ghost before = self.neighborhoods@;
            let leads_there = |edge: &Edge| -> (there: bool)
                ensures
                    there == (edge@.target.id == id@),
            {
                *edge.node_ptr.id() == *id
            };
            match self.neighborhoods.remove_f(leads_there) {
                None => {
                    proof {
                        let views = edge_views(before);
                        assert forall|i: int| 0 <= i < views.len() implies keep(
                            #[trigger] views[i],
                        ) by {
                            assert(call_ensures(leads_there, (&before[i],), false));
                        }
                        lemma_filter_keeps_all(views, keep);
                    }
                    break;
                },
                Some(edge) => {
                    proof {
                        let k = choose|k: int|
                            {
                                &&& 0 <= k < before.len()
                                &&& #[trigger] scan_stops_at(leads_there, before, k)
                                &&& edge == before[k]
                                &&& self.neighborhoods@ == before.remove(k)
                            };
                        assert(edge_views(before.remove(k)) =~= edge_views(before).remove(k));
                        lemma_filter_without(edge_views(before), keep, k);
                    }
                },
            }
        }
    }
}

/// The first of `nodes` with the key `id`.
pub fn find_by_id<'a>(nodes: &'a List<Rc<GraphNode>>, id: &String) -> (node: Option<
    &'a Rc<GraphNode>,
>)
    ensures
        node is Some <==> has_id(node_views(nodes@), id@),
        node matches Some(n) ==> Some(n@) == found(node_views(nodes@), with_id(id@)),
{
    let has_key = |node: &Rc<GraphNode>| -> (same: bool)
        ensures
            same == (node@.id == id@),
    {
        *node.id() == *id
    };
    let mut it = nodes.seek_f(has_key);
    proof {
        lemma_scan_of_images(
            has_key,
            nodes@,
            nodes@.len() - it@.len(),
            |node: Rc<GraphNode>| node@,
            with_id(id@),
        );
    }
    it.next()
}

/// The labels of `nodes`, in the order of the list, with `, ` between one
/// and the next.
pub fn names_of(nodes: &List<Rc<GraphNode>>) -> (line: String)
    ensures
        line@ == names_line(node_views(nodes@)),
{
    let mut buff = String::new();
    let mut it = nodes.iter();
    let ghost all = node_views(nodes@);
    match it.next() {
        None => {
            return buff;
        },
        Some(node) => {
            buff.append(node.name().as_str());
        },
    }
    assert(node_views(it@) =~= all.skip(1));
    assert(buff@ =~= all[0].name);
    loop
        invariant
            names_line(all) == buff@ + more_names(node_views(it@)),
        ensures
            names_line(all) == buff@,
        decreases it@.len(),
    {
        let ghost ahead = node_views(it@);
        let ghost written = buff@;
        match it.next() {
            None => {
                assert(written + more_names(ahead) =~= written);
                break;
            },
            Some(node) => {
                buff.append(", ");
                buff.append(node.name().as_str());
                proof {
                    reveal_strlit(", ");
                    assert(", "@ =~= comma());
                    assert(node_views(it@) =~= ahead.skip(1));
                    assert(written + (comma() + ahead[0].name + more_names(ahead.skip(1)))
                        =~= written + comma() + ahead[0].name + more_names(ahead.skip(1)));
                }
            },
        }
    }
    buff
}

/// A filter that every element passes changes nothing.
proof fn lemma_filter_keeps_all<A>(s: Seq<A>, keep: spec_fn(A) -> bool)
    requires
        forall|i: int| 0 <= i < s.len() ==> keep(#[trigger] s[i]),
    ensures
        s.filter(keep) == s,
    decreases s.len(),
{
    reveal(Seq::filter);
    if s.len() > 0 {
        let front = s.drop_last();
        assert forall|i: int| 0 <= i < front.len() implies keep(#[trigger] front[i]) by {
            assert(front[i] == s[i]);
        }
        lemma_filter_keeps_all(front, keep);
        assert(front.push(s.last()) =~= s);
    }
}

/// Taking out an element that does not pass a filter leaves what passes it.
proof fn lemma_filter_without<A>(s: Seq<A>, keep: spec_fn(A) -> bool, k: int)
    requires
        0 <= k < s.len(),
        !keep(s[k]),
    ensures
        s.remove(k).filter(keep) == s.filter(keep),
{
    let left = s.take(k);
    let right = s.skip(k + 1);
    let one = seq![s[k]];
    assert(s =~= left + one + right);
    assert(s.remove(k) =~= left + right);
    Seq::filter_distributes_over_add(left, one, keep);
    Seq::filter_distributes_over_add(left + one, right, keep);
    Seq::filter_distributes_over_add(left, right, keep);
    assert(one.filter(keep) =~= Seq::<A>::empty()) by {
        reveal_with_fuel(Seq::filter, 2);
        assert(one.drop_last() =~= Seq::<A>::empty());
    }
    assert(left.filter(keep) + one.filter(keep) =~= left.filter(keep));
}

} // verus!
