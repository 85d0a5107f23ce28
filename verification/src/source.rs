//! What a line source delivers, and how reading a graph from it can fail.
use vstd::prelude::*;

verus! {

/// One delivery of a line source.
pub enum Line {
    /// A line of text.
    Text(String),
    /// The source reported an error in place of a line.
    Unreadable,
}

/// One of the two inputs of a graph, as far as the line source got with it.
pub enum Source {
    /// There is nothing at the given place.
    Missing,
    /// Everything the source delivered, the header line included.
    Opened(Vec<Line>),
}

/// Which of the two inputs.
#[derive(Clone, Copy, Debug, PartialEq, Eq, Structural)]
pub enum Stream {
    /// The node records, `id,name`.
    Nodes,
    /// The edge records, `from,to,weight`.
    Edges,
}

/// Why no graph was built. Lines count from 1, and line 1 is the header.
#[derive(Clone, Copy, Debug, PartialEq, Eq, Structural)]
pub enum IngestError {
    /// The input is missing.
    FileNotFound { stream: Stream },
    /// The source failed to deliver this line.
    LineReadFailure { stream: Stream, line: usize },
    /// The line has too few fields, or names a node that was not read.
    MalformedRecord { stream: Stream, line: usize },
}

impl IngestError {
    /// The line that the error names; 0 where it names none.
    pub open spec fn line_number(self) -> int {
        match self {
            IngestError::FileNotFound { .. } => 0,
            IngestError::LineReadFailure { line, .. } => line as int,
            IngestError::MalformedRecord { line, .. } => line as int,
        }
    }
}

impl View for Line {
    type V = Option<Seq<char>>;

    open spec fn view(&self) -> Option<Seq<char>> {
        match self {
            Line::Text(text) => Some(text@),
            Line::Unreadable => None,
        }
    }
}

impl View for Source {
    type V = Option<Seq<Option<Seq<char>>>>;

    open spec fn view(&self) -> Option<Seq<Option<Seq<char>>>> {
        match self {
            Source::Missing => None,
            Source::Opened(lines) => Some(lines@.map_values(|line: Line| line@)),
        }
    }
}

} // verus!
