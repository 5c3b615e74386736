//! Core error types.
use vstd::prelude::*;
use vstd::string::*;

use crate::ids::{self, Id};
use crate::nomai_format::{Fault, ParseError};
use crate::text;

verus! {

/// What can go wrong. An error that the database, the file system or a
/// provider reported is held as its message.
#[derive(Debug, Clone)]
pub enum CoreError {
    NotFound(Id),
    ResourceNotFound { resource: &'static str, id: Id },
    Validation(String),
    Conflict(String),
    Provider(String),
    Storage(String),
    Migration(String),
    Io(String),
    NomaiFormat(ParseError),
    Config(String),
    SyncConflict { message: String, conflicted_files: Vec<String> },
}

/// An error as mathematics.
pub enum CoreFault {
    NotFound(Id),
    ResourceNotFound { resource: Seq<char>, id: Id },
    Validation(Seq<char>),
    Conflict(Seq<char>),
    Provider(Seq<char>),
    Storage(Seq<char>),
    Migration(Seq<char>),
    Io(Seq<char>),
    NomaiFormat(Fault),
    Config(Seq<char>),
    SyncConflict { message: Seq<char>, conflicted_files: Seq<Seq<char>> },
}

impl View for CoreError {
    type V = CoreFault;

    open spec fn view(&self) -> CoreFault {
        match self {
            CoreError::NotFound(id) => CoreFault::NotFound(*id),
            CoreError::ResourceNotFound { resource, id } => CoreFault::ResourceNotFound {
                resource: resource@,
                id: *id,
            },
            CoreError::Validation(m) => CoreFault::Validation(m@),
            CoreError::Conflict(m) => CoreFault::Conflict(m@),
            CoreError::Provider(m) => CoreFault::Provider(m@),
            CoreError::Storage(m) => CoreFault::Storage(m@),
            CoreError::Migration(m) => CoreFault::Migration(m@),
            CoreError::Io(m) => CoreFault::Io(m@),
            CoreError::NomaiFormat(e) => CoreFault::NomaiFormat(e@),
            CoreError::Config(m) => CoreFault::Config(m@),
            CoreError::SyncConflict { message, conflicted_files } => CoreFault::SyncConflict {
                message: message@,
                conflicted_files: text::texts(conflicted_files@),
            },
        }
    }
}

impl CoreFault {
    /// What the error says.
    pub open spec fn message(self) -> Seq<char> {
        match self {
            CoreFault::NotFound(id) => "entry not found: "@ + ids::text_of_id(id),
            CoreFault::ResourceNotFound { resource, id } => resource + " not found: "@
                + ids::text_of_id(id),
            CoreFault::Validation(m) => "validation error: "@ + m,
            CoreFault::Conflict(m) => "conflict: "@ + m,
            CoreFault::Provider(m) => "provider error: "@ + m,
            CoreFault::Storage(m) => "storage error: "@ + m,
            CoreFault::Migration(m) => "migration error: "@ + m,
            CoreFault::Io(m) => "io error: "@ + m,
            CoreFault::NomaiFormat(f) => "nomai format error: "@ + f.message(),
            CoreFault::Config(m) => "config error: "@ + m,
            CoreFault::SyncConflict { message, conflicted_files: _ } => "sync conflict: "@
                + message,
        }
    }
}

impl CoreError {
    /// What the error says.
    pub fn to_text(&self) -> (s: String)
        ensures
            s@ == self@.message(),
    {
        match self {
            CoreError::NotFound(id) => {
                let id = ids::id_text(*id);
                text::text2("entry not found: ", id.as_str())
            },
            CoreError::ResourceNotFound { resource, id } => {
                let id = ids::id_text(*id);
                text::text3(resource, " not found: ", id.as_str())
            },
            CoreError::Validation(m) => text::text2("validation error: ", m.as_str()),
            CoreError::Conflict(m) => text::text2("conflict: ", m.as_str()),
            CoreError::Provider(m) => text::text2("provider error: ", m.as_str()),
            CoreError::Storage(m) => text::text2("storage error: ", m.as_str()),
            CoreError::Migration(m) => text::text2("migration error: ", m.as_str()),
            CoreError::Io(m) => text::text2("io error: ", m.as_str()),
            CoreError::NomaiFormat(e) => {
                let m = e.to_text();
                text::text2("nomai format error: ", m.as_str())
            },
            CoreError::Config(m) => text::text2("config error: ", m.as_str()),
            CoreError::SyncConflict { message, conflicted_files: _ } => {
                text::text2("sync conflict: ", message.as_str())
            },
        }
    }

    /// A validation error with a fixed message.
    pub fn validation(message: &str) -> (e: CoreError)
        ensures
            e@ == CoreFault::Validation(message@),
    {
        CoreError::Validation(message.to_owned())
    }

    /// A validation error about an identifier.
    pub fn validation_of(message: &str, id: Id) -> (e: CoreError)
        ensures
            e@ == CoreFault::Validation(message@ + ids::text_of_id(id)),
    {
        let id = ids::id_text(id);
        CoreError::Validation(text::text2(message, id.as_str()))
    }
}

impl From<ParseError> for CoreError {
    fn from(e: ParseError) -> (r: CoreError) {
        CoreError::NomaiFormat(e)
    }
}

impl vstd::std_specs::convert::FromSpecImpl<ParseError> for CoreError {
    open spec fn obeys_from_spec() -> bool {
        true
    }

    open spec fn from_spec(e: ParseError) -> CoreError {
        CoreError::NomaiFormat(e)
    }
}

} // verus!
