//! Errors of the indexes.

use vstd::prelude::*;
use vstd::string::StringExecFns;
use crate::text::{decimal, push_decimal};
use crate::types::VectorId;

verus! {

#[derive(Debug, PartialEq, Eq)]
pub enum IndexError {
    /// The vector has another dimension than the index.
    DimensionMismatch { expected: usize, got: usize },
    /// The id already exists.
    DuplicateId(VectorId),
    /// There is no such id.
    NotFound(VectorId),
    /// The index does not offer the operation.
    Unsupported(&'static str),
    /// A write to the log or to disk failed. The log is written first, so a
    /// mutation that is answered with this error has not been applied.
    Storage(String),
}

/// An id in words.
pub open spec fn id_text(id: VectorId) -> Seq<char> {
    "VectorId("@ + decimal(id.0 as int) + ")"@
}

/// An [`IndexError`] in words.
pub open spec fn error_message(e: IndexError) -> Seq<char> {
    match e {
        IndexError::DimensionMismatch { expected, got } => "dimension mismatch: index expects "@
            + decimal(expected as int) + ", got "@ + decimal(got as int),
        IndexError::DuplicateId(id) => "id already exists: "@ + id_text(id),
        IndexError::NotFound(id) => "id not found: "@ + id_text(id),
        IndexError::Unsupported(what) => "unsupported: "@ + what@,
        IndexError::Storage(why) => "persistence error: "@ + why@,
    }
}

fn push_id_text(s: &mut String, id: VectorId)
    ensures
        final(s)@ == old(s)@ + id_text(id),
{
    let ghost before = s@;
    s.append("VectorId(");
    push_decimal(s, id.0);
    s.append(")");
    assert(s@ =~= before + id_text(id));
}

impl IndexError {
    /// The error in words.
    pub fn message(&self) -> (s: String)
        ensures
            s@ == error_message(*self),
    {
        match self {
            IndexError::DimensionMismatch { expected, got } => {
                let mut s: String = String::from_str("dimension mismatch: index expects ");
                push_decimal(&mut s, *expected as u64);
                s.append(", got ");
                push_decimal(&mut s, *got as u64);
                s
            },
            IndexError::DuplicateId(id) => {
                let mut s: String = String::from_str("id already exists: ");
                push_id_text(&mut s, *id);
                s
            },
            IndexError::NotFound(id) => {
                let mut s: String = String::from_str("id not found: ");
                push_id_text(&mut s, *id);
                s
            },
            IndexError::Unsupported(what) => {
                let mut s: String = String::from_str("unsupported: ");
                s.append(what);
                s
            },
            IndexError::Storage(why) => {
                let mut s: String = String::from_str("persistence error: ");
                s.append(why.as_str());
                s
            },
        }
    }
}

} // verus!
