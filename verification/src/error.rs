//! What can go wrong, and how it is worded.

use vstd::prelude::*;
use vstd::string::StringExecFns;

use crate::schema::MESH_SCHEMA_VERSION;
use crate::text::{append_decimal, around, join, quoted, sentence2};
#[allow(unused_imports)]
use crate::text::{debug_text, decimal};

verus! {

pub type MeshResult<T> = Result<T, MeshError>;

#[derive(Debug)]
pub enum MeshError {
    UnsupportedDimension { domain: String, dimension: u8 },
    InvalidInput(String),
    InvalidFile(String),
    Capability(String),
    UnsupportedFileVersion(u32),
    Cancelled,
    LimitExceeded(String),
    Io(String),
    Arrow(String),
    AtomicPublication { destination: String, reason: String },
}

impl MeshError {
    /// The sentence shown to the user.
    pub open spec fn text(self) -> Seq<char> {
        match self {
            MeshError::UnsupportedDimension { domain, dimension } =>
                "built-in meshing supports only 2D and 3D domains; "@ + debug_text(domain@) + " is "@
                    + decimal(dimension as nat) + "D"@,
            MeshError::InvalidInput(message) => message@,
            MeshError::InvalidFile(message) => message@,
            MeshError::Capability(message) => message@,
            MeshError::UnsupportedFileVersion(version) =>
                "unsupported mesh schema version "@ + decimal(version as nat) + "; expected "@
                    + decimal(MESH_SCHEMA_VERSION as nat) + ""@,
            MeshError::Cancelled => "meshing cancelled"@,
            MeshError::LimitExceeded(message) => message@,
            MeshError::Io(message) => "mesh I/O failed: "@ + message@,
            MeshError::Arrow(message) => "Arrow IPC error: "@ + message@,
            MeshError::AtomicPublication { destination, reason } =>
                "could not publish "@ + destination@ + " atomically: "@ + reason@,
        }
    }

    /// The errors are of one kind and say the same.
    pub open spec fn agrees_with(self, other: MeshError) -> bool {
        &&& self.text() == other.text()
        &&& self is UnsupportedDimension == other is UnsupportedDimension
        &&& self is InvalidInput == other is InvalidInput
        &&& self is InvalidFile == other is InvalidFile
        &&& self is Capability == other is Capability
        &&& self is UnsupportedFileVersion == other is UnsupportedFileVersion
        &&& self is Cancelled == other is Cancelled
        &&& self is LimitExceeded == other is LimitExceeded
        &&& self is Io == other is Io
        &&& self is Arrow == other is Arrow
    }

    /// The sentence shown to the user.
    pub fn message(&self) -> (result: String)
        ensures
            result@ == self.text(),
    {
        match self {
            MeshError::UnsupportedDimension { domain, dimension } => {
                let mut text = around(
                    "built-in meshing supports only 2D and 3D domains; ",
                    quoted(domain.as_str()).as_str(),
                    " is ",
                );
                append_decimal(&mut text, *dimension as u64);
                text.append("D");
                text
            },
            MeshError::InvalidInput(message) => message.clone(),
            MeshError::InvalidFile(message) => message.clone(),
            MeshError::Capability(message) => message.clone(),
            MeshError::UnsupportedFileVersion(version) => sentence2(
                "unsupported mesh schema version ",
                *version as u64,
                "; expected ",
                MESH_SCHEMA_VERSION as u64,
                "",
            ),
            MeshError::Cancelled => "meshing cancelled".to_owned(),
            MeshError::LimitExceeded(message) => message.clone(),
            MeshError::Io(message) => join("mesh I/O failed: ", message.as_str()),
            MeshError::Arrow(message) => join("Arrow IPC error: ", message.as_str()),
            MeshError::AtomicPublication { destination, reason } => {
                let mut text = around("could not publish ", destination.as_str(), " atomically: ");
                text.append(reason.as_str());
                text
            },
        }
    }

    pub fn invalid_input(message: &str) -> (result: MeshError)
        ensures
            result is InvalidInput,
            result.text() == message@,
    {
        MeshError::InvalidInput(message.to_owned())
    }

    pub fn invalid_file(message: &str) -> (result: MeshError)
        ensures
            result is InvalidFile,
            result.text() == message@,
    {
        MeshError::InvalidFile(message.to_owned())
    }

    pub fn limit_exceeded(message: &str) -> (result: MeshError)
        ensures
            result is LimitExceeded,
            result.text() == message@,
    {
        MeshError::LimitExceeded(message.to_owned())
    }
}

/// The result is the error `InvalidInput` with this message.
pub open spec fn fails_input<T>(result: MeshResult<T>, message: Seq<char>) -> bool {
    result matches Err(error) && error is InvalidInput && error.text() == message
}

/// The result is the error `InvalidFile` with this message.
pub open spec fn fails_file<T>(result: MeshResult<T>, message: Seq<char>) -> bool {
    result matches Err(error) && error is InvalidFile && error.text() == message
}

/// The result is the error `LimitExceeded` with this message.
pub open spec fn fails_limit<T>(result: MeshResult<T>, message: Seq<char>) -> bool {
    result matches Err(error) && error is LimitExceeded && error.text() == message
}

} // verus!
