//! Error type of the library.
use vstd::prelude::*;
use vstd::string::StringExecFns;

verus! {

/// What can go wrong in a nofs operation; each variant carries its detail text.
#[derive(Debug)]
pub enum NofsError {
    Config(String),
    Branch(String),
    Policy(String),
    PathNotFound(String),
    NoSuitableBranch,
    Io(String),
    Parse(String),
    CopyMove(String),
    Conflict(String),
    Command(String),
    Internal(String),
}

/// The text of an error: a fixed heading per variant, then its detail.
pub open spec fn error_text(e: NofsError) -> Seq<char> {
    match e {
        NofsError::Config(s) => "Configuration error: "@ + s@,
        NofsError::Branch(s) => "Branch error: "@ + s@,
        NofsError::Policy(s) => "Policy error: "@ + s@,
        NofsError::PathNotFound(s) => "Path not found: "@ + s@,
        NofsError::NoSuitableBranch => "No suitable branch found for operation"@,
        NofsError::Io(s) => "IO error: "@ + s@,
        NofsError::Parse(s) => "Parse error: "@ + s@,
        NofsError::CopyMove(s) => "Copy/Move error: "@ + s@,
        NofsError::Conflict(s) => "Conflict resolution error: "@ + s@,
        NofsError::Command(s) => "Command error: "@ + s@,
        NofsError::Internal(s) => "Internal error: "@ + s@,
    }
}

impl NofsError {
    /// The text of the error, as it is shown to the user.
    pub fn to_string(&self) -> (r: String)
        ensures
            r@ == error_text(*self),
    {
        match self {
            NofsError::Config(s) => String::from_str("Configuration error: ").concat(s.as_str()),
            NofsError::Branch(s) => String::from_str("Branch error: ").concat(s.as_str()),
            NofsError::Policy(s) => String::from_str("Policy error: ").concat(s.as_str()),
            NofsError::PathNotFound(s) => String::from_str("Path not found: ").concat(s.as_str()),
            NofsError::NoSuitableBranch => String::from_str(
                "No suitable branch found for operation",
            ),
            NofsError::Io(s) => String::from_str("IO error: ").concat(s.as_str()),
            NofsError::Parse(s) => String::from_str("Parse error: ").concat(s.as_str()),
            NofsError::CopyMove(s) => String::from_str("Copy/Move error: ").concat(s.as_str()),
            NofsError::Conflict(s) => String::from_str("Conflict resolution error: ").concat(
                s.as_str(),
            ),
            NofsError::Command(s) => String::from_str("Command error: ").concat(s.as_str()),
            NofsError::Internal(s) => String::from_str("Internal error: ").concat(s.as_str()),
        }
    }
}

/// `a` followed by `b`, as a new string.
pub fn join2(a: &str, b: &str) -> (r: String)
    ensures
        r@ == a@ + b@,
{
    String::from_str(a).concat(b)
}

/// `a`, `b` and `c` in a row, as a new string.
pub fn join3(a: &str, b: &str, c: &str) -> (r: String)
    ensures
        r@ == a@ + b@ + c@,
{
    String::from_str(a).concat(b).concat(c)
}

} // verus!
