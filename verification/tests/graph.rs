use std::rc::Rc;

use linked_graph::graph::Graph;
use linked_graph::ingest::{parse_csv_file, Draft};
use linked_graph::record::names_of;
use linked_graph::source::{IngestError, Line, Source, Stream};

fn source(lines: &[&str]) -> Source {
    let mut deliveries = vec![Line::Text("header\n".to_string())];
    for line in lines {
        deliveries.push(Line::Text(format!("{}\n", line)));
    }
    Source::Opened(deliveries)
}

fn graph(nodes: &[&str], edges: &[&str]) -> Graph {
    match Graph::new_undirected(&source(nodes), &source(edges)) {
        Ok(graph) => graph,
        Err(error) => panic!("no graph: {:?}", error),
    }
}

fn error(nodes: &Source, edges: &Source) -> IngestError {
    match Graph::new_undirected(nodes, edges) {
        Ok(_) => panic!("a graph was built"),
        Err(error) => error,
    }
}

fn ids(graph: &Graph) -> Vec<String> {
    let mut ids = Vec::new();
    let mut it = graph.nodes().iter();
    while let Some(node) = it.next() {
        ids.push(node.id().clone());
    }
    ids
}

fn owners(graph: &Graph) -> Vec<String> {
    let mut ids = Vec::new();
    let mut it = graph.adjacency().iter();
    while let Some(entry) = it.next() {
        ids.push(entry.owner().id().clone());
    }
    ids
}

fn neighbors(graph: &Graph, id: &str) -> Vec<(String, Option<i32>)> {
    let mut found = Vec::new();
    let mut it = graph.adjacency().iter();
    while let Some(entry) = it.next() {
        if entry.owner().id() == id {
            let mut edges = entry.neighbors().iter();
            while let Some(edge) = edges.next() {
                found.push((edge.target().id().clone(), edge.weight()));
            }
        }
    }
    found
}

fn keys(nodes: &linked_graph::list::List<Rc<linked_graph::record::GraphNode>>) -> Vec<String> {
    let mut ids = Vec::new();
    let mut it = nodes.iter();
    while let Some(node) = it.next() {
        ids.push(node.id().clone());
    }
    ids
}

#[test]
fn renders_one_line_per_node() {
    let graph = graph(&["N1,Ned", "N2,Robert"], &["N1,N2,10"]);
    assert_eq!(graph.render(), "N1: -> N2\nN2: -> N1\n");
}

#[test]
fn renders_nothing_for_no_nodes() {
    let graph = graph(&[], &[]);
    assert_eq!(graph.render(), "");
    assert_eq!(graph.fmt_nodes(), "");
}

#[test]
fn renders_a_node_without_edges() {
    let graph = graph(&["N1,Ned"], &[]);
    assert_eq!(graph.render(), "N1:\n");
}

#[test]
fn renders_edges_in_the_order_they_were_read() {
    let graph = graph(
        &["A,a", "B,b", "C,c", "D,d"],
        &["A,B,1", "A,C,2", "D,A,3"],
    );
    assert_eq!(
        graph.render(),
        "A: -> B -> C -> D\nB: -> A\nC: -> A\nD: -> A\n"
    );
}

#[test]
fn one_field_is_no_node() {
    let nodes = source(&["N1,Ned", "N2"]);
    let edges = source(&[]);
    assert_eq!(
        error(&nodes, &edges),
        IngestError::MalformedRecord { stream: Stream::Nodes, line: 3 }
    );
}

#[test]
fn empty_line_is_no_node() {
    let nodes = source(&[""]);
    let edges = source(&[]);
    assert_eq!(
        error(&nodes, &edges),
        IngestError::MalformedRecord { stream: Stream::Nodes, line: 2 }
    );
}

#[test]
fn unknown_end_is_no_edge() {
    let nodes = source(&["N1,Ned", "N2,Robert"]);
    assert_eq!(
        error(&nodes, &source(&["N1,N2,1", "N1,N3,10"])),
        IngestError::MalformedRecord { stream: Stream::Edges, line: 3 }
    );
    assert_eq!(
        error(&nodes, &source(&["N3,N1,10"])),
        IngestError::MalformedRecord { stream: Stream::Edges, line: 2 }
    );
}

#[test]
fn two_fields_are_no_edge() {
    let nodes = source(&["N1,Ned", "N2,Robert"]);
    assert_eq!(
        error(&nodes, &source(&["N1,N2"])),
        IngestError::MalformedRecord { stream: Stream::Edges, line: 2 }
    );
}

#[test]
fn missing_input_is_reported() {
    let there = source(&["N1,Ned"]);
    assert_eq!(
        error(&Source::Missing, &there),
        IngestError::FileNotFound { stream: Stream::Nodes }
    );
    assert_eq!(
        error(&there, &Source::Missing),
        IngestError::FileNotFound { stream: Stream::Edges }
    );
    assert_eq!(
        error(&Source::Missing, &Source::Missing),
        IngestError::FileNotFound { stream: Stream::Nodes }
    );
}

#[test]
fn bad_nodes_come_before_missing_edges() {
    assert_eq!(
        error(&source(&["N1"]), &Source::Missing),
        IngestError::MalformedRecord { stream: Stream::Nodes, line: 2 }
    );
}

#[test]
fn unreadable_line_is_reported() {
    let nodes = Source::Opened(vec![
        Line::Text("Id,Label".to_string()),
        Line::Text("N1,Ned".to_string()),
        Line::Unreadable,
        Line::Text("N2".to_string()),
    ]);
    assert_eq!(
        error(&nodes, &source(&[])),
        IngestError::LineReadFailure { stream: Stream::Nodes, line: 3 }
    );
    let edges = Source::Opened(vec![Line::Text("h".to_string()), Line::Unreadable]);
    assert_eq!(
        error(&source(&["N1,Ned"]), &edges),
        IngestError::LineReadFailure { stream: Stream::Edges, line: 2 }
    );
}

#[test]
fn first_failure_wins() {
    let nodes = Source::Opened(vec![
        Line::Text("Id,Label".to_string()),
        Line::Text("N1".to_string()),
        Line::Unreadable,
    ]);
    assert_eq!(
        error(&nodes, &source(&[])),
        IngestError::MalformedRecord { stream: Stream::Nodes, line: 2 }
    );
}

#[test]
fn header_is_passed_over() {
    let nodes = Source::Opened(vec![Line::Unreadable, Line::Text("N1,Ned".to_string())]);
    let edges = Source::Opened(vec![Line::Text("not,an,edge,at,all".to_string())]);
    let graph = match Graph::new_undirected(&nodes, &edges) {
        Ok(graph) => graph,
        Err(error) => panic!("no graph: {:?}", error),
    };
    assert_eq!(graph.render(), "N1:\n");
}

#[test]
fn nothing_delivered_is_an_empty_graph() {
    let graph = match Graph::new_undirected(&Source::Opened(vec![]), &Source::Opened(vec![])) {
        Ok(graph) => graph,
        Err(error) => panic!("no graph: {:?}", error),
    };
    assert_eq!(graph.render(), "");
    assert!(graph.nodes().peek().is_none());
    assert!(graph.adjacency().peek().is_none());
}

#[test]
fn every_record_is_a_node_with_an_entry() {
    let graph = graph(&["N1,Ned", "N2,Robert", "N3,Jon"], &[]);
    assert_eq!(ids(&graph), vec!["N1", "N2", "N3"]);
    assert_eq!(owners(&graph), vec!["N1", "N2", "N3"]);
    assert_eq!(graph.fmt_nodes(), "Ned, Robert, Jon");
    assert_eq!(graph.render(), "N1:\nN2:\nN3:\n");
}

#[test]
fn fields_beyond_the_record_are_ignored() {
    let graph = graph(&["N1,Ned,Stark", "N2,Robert,,x"], &["N1,N2,4,more"]);
    assert_eq!(graph.fmt_nodes(), "Ned, Robert");
    assert_eq!(neighbors(&graph, "N1"), vec![("N2".to_string(), Some(4))]);
}

#[test]
fn lines_are_trimmed_but_fields_are_not() {
    let nodes = Source::Opened(vec![
        Line::Text("h".to_string()),
        Line::Text("  N1, Ned \r\n".to_string()),
    ]);
    let graph = match Graph::new_undirected(&nodes, &source(&[])) {
        Ok(graph) => graph,
        Err(error) => panic!("no graph: {:?}", error),
    };
    let node = graph.lookup("N1").unwrap();
    assert_eq!(node.name(), " Ned");
}

#[test]
fn empty_fields_are_fields() {
    let graph = graph(&[","], &[",,"]);
    assert_eq!(graph.render(), ": ->  -> \n");
    assert_eq!(neighbors(&graph, ""), vec![("".to_string(), None), ("".to_string(), None)]);
}

#[test]
fn edge_is_entered_at_both_ends() {
    let graph = graph(&["A,a", "B,b"], &["A,B,5"]);
    assert_eq!(neighbors(&graph, "A"), vec![("B".to_string(), Some(5))]);
    assert_eq!(neighbors(&graph, "B"), vec![("A".to_string(), Some(5))]);
}

#[test]
fn newest_edge_is_at_the_head() {
    let graph = graph(&["A,a", "B,b", "C,c"], &["A,B,5", "C,A,-7"]);
    assert_eq!(
        neighbors(&graph, "A"),
        vec![("C".to_string(), Some(-7)), ("B".to_string(), Some(5))]
    );
}

#[test]
fn weight_that_is_no_integer_is_no_weight() {
    let graph = graph(&["A,a", "B,b"], &["A,B,heavy", "A,B, 5", "A,B,", "A,B,2147483648"]);
    assert_eq!(
        neighbors(&graph, "B"),
        vec![
            ("A".to_string(), None),
            ("A".to_string(), None),
            ("A".to_string(), None),
            ("A".to_string(), None)
        ]
    );
}

#[test]
fn repeated_edge_is_entered_again() {
    let graph = graph(&["A,a", "B,b"], &["A,B,1", "A,B,2"]);
    assert_eq!(graph.render(), "A: -> B -> B\nB: -> A -> A\n");
}

#[test]
fn edge_to_itself_is_entered_twice() {
    let graph = graph(&["A,a"], &["A,A,3"]);
    assert_eq!(
        neighbors(&graph, "A"),
        vec![("A".to_string(), Some(3)), ("A".to_string(), Some(3))]
    );
}

#[test]
fn lookup_finds_by_key() {
    let graph = graph(&["N1,Ned", "N2,Robert"], &[]);
    let node = graph.lookup("N2").unwrap();
    assert_eq!(node.id(), "N2");
    assert_eq!(node.name(), "Robert");
    assert!(graph.lookup("N3").is_none());
    assert!(graph.lookup("Ned").is_none());
}

#[test]
fn lookup_finds_by_label() {
    let graph = graph(&["N1,Ned", "N2,Robert"], &[]);
    let node = graph.lookup_by_name("Ned").unwrap();
    assert_eq!(node.id(), "N1");
    assert!(graph.lookup_by_name("N1").is_none());
}

#[test]
fn lookup_shares_the_node() {
    let graph = graph(&["N1,Ned", "N2,Robert"], &["N1,N2,1"]);
    let node = graph.lookup("N1").unwrap();
    let in_graph = graph.nodes().seek_f(|n| n.id() == "N1");
    assert!(Rc::ptr_eq(&node, in_graph.peek().unwrap()));
    // the node list, its entry, one edge, and the handle in the test
    assert_eq!(Rc::strong_count(&node), 4);
}

#[test]
fn removed_node_is_gone() {
    let mut graph = graph(
        &["A,a", "B,b", "C,c"],
        &["A,B,1", "B,C,2", "C,A,3", "A,B,4"],
    );
    let node = graph.lookup("B").unwrap();
    let removed = graph.remove(node);
    assert_eq!(removed.id(), "B");
    assert_eq!(removed.name(), "b");
    assert!(graph.lookup("B").is_none());
    assert_eq!(graph.render(), "A: -> C\nC: -> A\n");
    assert_eq!(ids(&graph), vec!["A", "C"]);
    assert_eq!(owners(&graph), vec!["A", "C"]);
}

#[test]
fn removing_the_only_node_leaves_nothing() {
    let mut graph = graph(&["A,a"], &["A,A,1"]);
    let node = graph.lookup("A").unwrap();
    graph.remove(node);
    assert_eq!(graph.render(), "");
    assert_eq!(graph.fmt_nodes(), "");
}

#[test]
fn removal_goes_by_key() {
    let mut graph = graph(&["A,a", "B,b"], &["A,B,1"]);
    let stranger = Rc::new(linked_graph::record::GraphNode::new(
        "A".to_string(),
        "someone else".to_string(),
    ));
    let removed = graph.remove(stranger);
    assert_eq!(removed.name(), "a");
    assert_eq!(graph.render(), "B:\n");
}

#[test]
fn diff_is_the_difference_of_keys() {
    let first = graph(&["A,a", "B,b", "C,c"], &[]);
    let second = graph(&["B,bee", "D,d", "E,e"], &[]);
    let diff = first.diff(&second);
    assert_eq!(keys(&diff.dead), vec!["E", "D"]);
    assert_eq!(keys(&diff.new), vec!["C", "A"]);
    let back = second.diff(&first);
    assert_eq!(keys(&back.dead), vec!["C", "A"]);
    assert_eq!(keys(&back.new), vec!["E", "D"]);
}

#[test]
fn same_keys_make_no_difference() {
    let first = graph(&["A,a", "B,b"], &["A,B,1"]);
    let second = graph(&["B,other", "A,names"], &[]);
    let diff = first.diff(&second);
    assert!(diff.dead.peek().is_none());
    assert!(diff.new.peek().is_none());
}

#[test]
fn same_key_twice_is_two_nodes() {
    let mut graph = graph(&["A,first", "A,second", "B,b"], &["A,B,1"]);
    assert_eq!(graph.fmt_nodes(), "first, second, b");
    assert_eq!(graph.render(), "A: -> B\nA:\nB: -> A\n");
    assert_eq!(graph.lookup("A").unwrap().name(), "first");
    let target = graph.adjacency().seek_f(|entry| entry.owner().id() == "B");
    let edge = target.peek().unwrap().neighbors().peek().unwrap();
    assert_eq!(edge.target().name(), "first");
    let node = graph.lookup("A").unwrap();
    let removed = graph.remove(node);
    assert_eq!(removed.name(), "first");
    assert_eq!(graph.lookup("A").unwrap().name(), "second");
    assert_eq!(graph.render(), "A:\nB:\n");
    assert_eq!(ids(&graph), owners(&graph));
}

#[test]
fn nodes_and_entries_stand_in_the_same_order() {
    let graph = graph(
        &["N3,c", "N1,a", "N2,b", "N4,d"],
        &["N1,N2,1", "N4,N3,2"],
    );
    assert_eq!(ids(&graph), vec!["N3", "N1", "N2", "N4"]);
    assert_eq!(owners(&graph), ids(&graph));
    let mut graph = graph;
    let node = graph.lookup("N1").unwrap();
    graph.remove(node);
    assert_eq!(ids(&graph), vec!["N3", "N2", "N4"]);
    assert_eq!(owners(&graph), ids(&graph));
}

#[test]
fn names_are_joined_in_the_order_of_the_list() {
    let first = graph(&["A,a", "B,b", "C,c"], &[]);
    let second = graph(&["B,bee"], &[]);
    assert_eq!(names_of(first.nodes()), "a, b, c");
    assert_eq!(names_of(second.nodes()), "bee");
    let diff = first.diff(&second);
    assert_eq!(names_of(&diff.new), "c, a");
    assert_eq!(names_of(&diff.dead), "");
}

#[test]
fn feeding_stops_at_the_first_refused_line() {
    let mut draft = Draft::new();
    let lines = Source::Opened(vec![
        Line::Text("Id,Label".to_string()),
        Line::Text("N1,Ned".to_string()),
        Line::Text("N2,Robert".to_string()),
        Line::Text("N3".to_string()),
        Line::Text("N4,Jon".to_string()),
        Line::Text("N5".to_string()),
    ]);
    assert_eq!(
        parse_csv_file(&lines, Stream::Nodes, &mut draft),
        Err(IngestError::MalformedRecord { stream: Stream::Nodes, line: 4 })
    );
    // The lines before the refused one were taken, the ones behind it were not.
    assert!(draft.take_node("N4,Jon"));
    draft.make_entries();
    let edges = Source::Opened(vec![
        Line::Text("h".to_string()),
        Line::Text("N1,N2,1".to_string()),
        Line::Text("N4,N1,2".to_string()),
        Line::Text("N3,N1,3".to_string()),
        Line::Text("N2,N4,4".to_string()),
    ]);
    assert_eq!(
        parse_csv_file(&edges, Stream::Edges, &mut draft),
        Err(IngestError::MalformedRecord { stream: Stream::Edges, line: 4 })
    );
    assert!(!draft.take_edge("N2,N3,4"));
    assert!(draft.take_edge("N2,N4,4"));
}

#[test]
fn feeding_takes_every_line_that_can_be_taken() {
    let mut draft = Draft::new();
    assert_eq!(parse_csv_file(&source(&["A,a", "B,b"]), Stream::Nodes, &mut draft), Ok(()));
    assert_eq!(parse_csv_file(&source(&["C,c"]), Stream::Nodes, &mut draft), Ok(()));
    assert_eq!(
        parse_csv_file(&Source::Missing, Stream::Nodes, &mut draft),
        Err(IngestError::FileNotFound { stream: Stream::Nodes })
    );
    // Without entries no edge has an end.
    assert_eq!(
        parse_csv_file(&source(&["A,B,1"]), Stream::Edges, &mut draft),
        Err(IngestError::MalformedRecord { stream: Stream::Edges, line: 2 })
    );
    draft.make_entries();
    assert_eq!(parse_csv_file(&source(&["A,B,1", "C,A,2"]), Stream::Edges, &mut draft), Ok(()));
}
