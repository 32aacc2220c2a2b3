//! What can go wrong, as values.

use vstd::prelude::*;

verus! {

/// Why a segment of a path found no node.
#[derive(Debug, Clone, Copy, PartialEq, Eq)]
pub enum Miss {
    /// The node is no mapping, or the mapping has no such key.
    Key,
    /// The node is no sequence, or the sequence has no item at this index.
    Index(u64),
    /// The segment is a sequence of one element that is no index: not an
    /// integer, or a negative one.
    BadIndex,
}

/// Where a value that is not YAML came from.
#[derive(Debug, PartialEq, Eq)]
pub enum Origin {
    /// It was to be written at this path.
    Path(String),
    /// It is what this environment variable holds.
    EnvVar(String),
}

/// A failure. Each one ends the run.
#[derive(Debug, PartialEq, Eq)]
pub enum Failure {
    /// The document is not YAML. `error` is the parser's message.
    InvalidDocument { error: String },
    /// The path is not YAML, and `cause` is the parser's message; or it is
    /// YAML, but no sequence, and `cause` is `None`.
    MalformedPath { path: String, cause: Option<String> },
    /// A segment is a sequence that does not have exactly one element. The
    /// cursor holds the segments up to that one, as text.
    UnsupportedPath { cursor: Vec<String>, path: String },
    /// A segment leads nowhere. The cursor holds the segments up to that
    /// one, as text.
    PathNotFound { cursor: Vec<String>, path: String, miss: Miss },
    /// The node at the path was required to be null, and is not.
    PreconditionFailed { path: String },
    /// A value is not YAML. `error` is the parser's message.
    InvalidValue { value: String, origin: Origin, error: String },
    /// An environment variable that is referred to is not set.
    MissingEnvVar { name: String },
    /// A segment or the document cannot be written as YAML. `error` is the
    /// emitter's message.
    Unwritable { error: String },
}

/// The model of an [`Origin`].
pub ghost enum Source {
    Path(Seq<char>),
    EnvVar(Seq<char>),
}

/// The model of a [`Failure`].
pub ghost enum FailureModel {
    InvalidDocument { error: Seq<char> },
    MalformedPath { path: Seq<char>, cause: Option<Seq<char>> },
    UnsupportedPath { cursor: Seq<Seq<char>>, path: Seq<char> },
    PathNotFound { cursor: Seq<Seq<char>>, path: Seq<char>, miss: Miss },
    PreconditionFailed { path: Seq<char> },
    InvalidValue { value: Seq<char>, origin: Source, error: Seq<char> },
    MissingEnvVar { name: Seq<char> },
    Unwritable { error: Seq<char> },
}

/// The texts that strings hold.
pub open spec fn texts(strings: Seq<String>) -> Seq<Seq<char>> {
    Seq::new(strings.len(), |i: int| strings[i]@)
}

impl View for Origin {
    type V = Source;

    open spec fn view(&self) -> Source {
        match self {
            Origin::Path(path) => Source::Path(path@),
            Origin::EnvVar(name) => Source::EnvVar(name@),
        }
    }
}

impl View for Failure {
    type V = FailureModel;

    open spec fn view(&self) -> FailureModel {
        match self {
            Failure::InvalidDocument { error } => FailureModel::InvalidDocument { error: error@ },
            Failure::MalformedPath { path, cause } => FailureModel::MalformedPath {
                path: path@,
                cause: match cause {
                    Some(message) => Some(message@),
                    None => None,
                },
            },
            Failure::UnsupportedPath { cursor, path } => FailureModel::UnsupportedPath {
                cursor: texts(cursor@),
                path: path@,
            },
            Failure::PathNotFound { cursor, path, miss } => FailureModel::PathNotFound {
                cursor: texts(cursor@),
                path: path@,
                miss: *miss,
            },
            Failure::PreconditionFailed { path } => FailureModel::PreconditionFailed { path: path@ },
            Failure::InvalidValue { value, origin, error } => FailureModel::InvalidValue {
                value: value@,
                origin: origin@,
                error: error@,
            },
            Failure::MissingEnvVar { name } => FailureModel::MissingEnvVar { name: name@ },
            Failure::Unwritable { error } => FailureModel::Unwritable { error: error@ },
        }
    }
}

/// The outcome of a call that changes a document in place, as the contracts
/// speak of it.
pub open spec fn done(r: Result<(), Failure>) -> Result<(), FailureModel> {
    match r {
        Ok(()) => Ok(()),
        Err(e) => Err(e@),
    }
}

} // verus!
