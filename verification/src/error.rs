//! The kernel's error type.

use vstd::prelude::*;
use vstd::string::StringExecFns;

verus! {

/// Errors reported by geometry operations.
#[derive(Debug, Clone, PartialEq)]
pub enum GeometryError {
    InvalidGeometry(String),
    Unsupported(String),
    Backend(String),
    Serialization(String),
}

/// The text shown for an error: a prefix naming its kind, then its detail.
pub open spec fn error_text(e: GeometryError) -> Seq<char> {
    match e {
        GeometryError::InvalidGeometry(m) => "invalid geometry: "@ + m@,
        GeometryError::Unsupported(m) => "unsupported operation: "@ + m@,
        GeometryError::Backend(m) => "backend error: "@ + m@,
        GeometryError::Serialization(m) => "serialization error: "@ + m@,
    }
}

impl GeometryError {
    /// The human-readable text of the error, as its display form shows it.
    pub fn message(&self) -> (s: String)
        ensures
            s@ == error_text(*self),
    {
        match self {
            GeometryError::InvalidGeometry(m) => String::from_str("invalid geometry: ").concat(m.as_str()),
            GeometryError::Unsupported(m) => String::from_str("unsupported operation: ").concat(m.as_str()),
            GeometryError::Backend(m) => String::from_str("backend error: ").concat(m.as_str()),
            GeometryError::Serialization(m) => String::from_str("serialization error: ").concat(m.as_str()),
        }
    }
}

/// An error's text ends with its detail, after a prefix that depends on the
/// kind alone; errors of different kinds never share a text.
pub proof fn lemma_error_text_shape(e: GeometryError, f: GeometryError)
    ensures
        ({
            let d = match e {
                GeometryError::InvalidGeometry(m) => m@,
                GeometryError::Unsupported(m) => m@,
                GeometryError::Backend(m) => m@,
                GeometryError::Serialization(m) => m@,
            };
            &&& error_text(e).len() > d.len()
            &&& error_text(e).subrange(error_text(e).len() - d.len(), error_text(e).len() as int) == d
        }),
        (e is InvalidGeometry) != (f is InvalidGeometry) || (e is Unsupported) != (f is Unsupported)
            || (e is Backend) != (f is Backend) ==> error_text(e) != error_text(f),
{
    reveal_strlit("invalid geometry: ");
    reveal_strlit("unsupported operation: ");
    reveal_strlit("backend error: ");
    reveal_strlit("serialization error: ");
    let t = error_text(e);
    match e {
        GeometryError::InvalidGeometry(m) => {
            assert(t.subrange(t.len() - m@.len(), t.len() as int) =~= m@);
        },
        GeometryError::Unsupported(m) => {
            assert(t.subrange(t.len() - m@.len(), t.len() as int) =~= m@);
        },
        GeometryError::Backend(m) => {
            assert(t.subrange(t.len() - m@.len(), t.len() as int) =~= m@);
        },
        GeometryError::Serialization(m) => {
            assert(t.subrange(t.len() - m@.len(), t.len() as int) =~= m@);
        },
    }
    let u = error_text(f);
    if t == u {
        assert(t[0] == u[0]);
        assert(t[1] == u[1]);
    }
}

} // verus!
