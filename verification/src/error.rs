use vstd::prelude::*;

verus! {

/// The error kinds the library reports. A duplicate add and an empty match
/// are recoverable; storage and process failures are fatal for the
/// invocation that hit them.
#[derive(Debug, Clone)]
pub enum CmdError {
    /// A failure described only by a message.
    BaseError(String),
    /// A subprocess could not be spawned or exited with a failure.
    OSProcessError(String),
    /// An `add` was asked to store a command text that is already present.
    DuplicateCmdError,
    /// A flat-file store could not be read or written.
    CSVError(String),
    /// A relational store statement failed.
    SQLError(String),
    /// A stored line could not be encoded or decoded.
    CSVSerdeError(String),
}

impl CmdError {
    /// The fixed description of each error kind.
    pub open spec fn message_spec(&self) -> Seq<char> {
        match self {
            CmdError::BaseError(_) => "Error"@,
            CmdError::OSProcessError(_) => "Cannot run command"@,
            CmdError::DuplicateCmdError => "The command already exists"@,
            CmdError::CSVError(_) => "CSV error"@,
            CmdError::SQLError(_) => "SQL error"@,
            CmdError::CSVSerdeError(_) => "Failed serializing/deserializing record"@,
        }
    }

    /// A short human-readable description of the error kind.
    pub fn message(&self) -> (r: String)
        ensures
            r@ == self.message_spec(),
    {
        match self {
            CmdError::BaseError(_) => String::from_str("Error"),
            CmdError::OSProcessError(_) => String::from_str("Cannot run command"),
            CmdError::DuplicateCmdError => String::from_str("The command already exists"),
            CmdError::CSVError(_) => String::from_str("CSV error"),
            CmdError::SQLError(_) => String::from_str("SQL error"),
            CmdError::CSVSerdeError(_) => String::from_str("Failed serializing/deserializing record"),
        }
    }

    /// The detail string carried by the error, where one is carried.
    pub fn detail(&self) -> (r: Option<&String>)
        ensures
            match self {
                CmdError::DuplicateCmdError => r is None,
                CmdError::BaseError(s) => r == Some(s),
                CmdError::OSProcessError(s) => r == Some(s),
                CmdError::CSVError(s) => r == Some(s),
                CmdError::SQLError(s) => r == Some(s),
                CmdError::CSVSerdeError(s) => r == Some(s),
            },
    {
        match self {
            CmdError::BaseError(s) => Some(s),
            CmdError::OSProcessError(s) => Some(s),
            CmdError::DuplicateCmdError => None,
            CmdError::CSVError(s) => Some(s),
            CmdError::SQLError(s) => Some(s),
            CmdError::CSVSerdeError(s) => Some(s),
        }
    }
}

impl From<String> for CmdError {
    fn from(s: String) -> (r: CmdError) {
        CmdError::BaseError(s)
    }
}

impl vstd::std_specs::convert::FromSpecImpl<String> for CmdError {
    open spec fn obeys_from_spec() -> bool {
        true
    }

    open spec fn from_spec(s: String) -> CmdError {
        CmdError::BaseError(s)
    }
}

} // verus!
