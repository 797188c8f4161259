use vstd::prelude::*;

verus! {

/// Errors of the memory engine; each carries a human-readable detail.
#[derive(Debug, Clone)]
pub enum ShabtiError {
    Storage(String),
    Index(String),
    Embedding(String),
    Validation(String),
    NotFound(String),
    Duplicate(String),
    Io(String),
    Serialization(String),
    Protocol(String),
    Timeout(String),
    Config(String),
}

pub type ShabtiResult<T> = Result<T, ShabtiError>;

/// The prefix that the rendered message of each error kind starts with.
pub open spec fn error_prefix(e: ShabtiError) -> Seq<char> {
    match e {
        ShabtiError::Storage(_) => "storage error: "@,
        ShabtiError::Index(_) => "index error: "@,
        ShabtiError::Embedding(_) => "embedding error: "@,
        ShabtiError::Validation(_) => "validation error: "@,
        ShabtiError::NotFound(_) => "not found: "@,
        ShabtiError::Duplicate(_) => "duplicate entry: "@,
        ShabtiError::Io(_) => "io error: "@,
        ShabtiError::Serialization(_) => "serialization error: "@,
        ShabtiError::Protocol(_) => "protocol error: "@,
        ShabtiError::Timeout(_) => "timeout: "@,
        ShabtiError::Config(_) => "configuration error: "@,
    }
}

/// The detail text an error carries.
pub open spec fn error_detail(e: ShabtiError) -> Seq<char> {
    match e {
        ShabtiError::Storage(s) => s@,
        ShabtiError::Index(s) => s@,
        ShabtiError::Embedding(s) => s@,
        ShabtiError::Validation(s) => s@,
        ShabtiError::NotFound(s) => s@,
        ShabtiError::Duplicate(s) => s@,
        ShabtiError::Io(s) => s@,
        ShabtiError::Serialization(s) => s@,
        ShabtiError::Protocol(s) => s@,
        ShabtiError::Timeout(s) => s@,
        ShabtiError::Config(s) => s@,
    }
}

impl ShabtiError {
    /// Renders the error as "<kind>: <detail>".
    pub fn to_string(&self) -> (s: String)
        ensures
            s@ == error_prefix(*self) + error_detail(*self),
    {
        let (prefix, detail) = match self {
            ShabtiError::Storage(d) => ("storage error: ", d),
            ShabtiError::Index(d) => ("index error: ", d),
            ShabtiError::Embedding(d) => ("embedding error: ", d),
            ShabtiError::Validation(d) => ("validation error: ", d),
            ShabtiError::NotFound(d) => ("not found: ", d),
            ShabtiError::Duplicate(d) => ("duplicate entry: ", d),
            ShabtiError::Io(d) => ("io error: ", d),
            ShabtiError::Serialization(d) => ("serialization error: ", d),
            ShabtiError::Protocol(d) => ("protocol error: ", d),
            ShabtiError::Timeout(d) => ("timeout: ", d),
            ShabtiError::Config(d) => ("configuration error: ", d),
        };
        let mut s = prefix.to_owned();
        s.append(detail.as_str());
        s
    }
}

} // verus!
