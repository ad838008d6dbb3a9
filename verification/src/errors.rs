//! The error kinds a run can end with, each with its printed description.
//! The text transformation itself is total; these errors belong to the file
//! and argument handling around it.

use vstd::prelude::*;
use vstd::string::*;

verus! {

/// Why a run failed.
#[derive(Debug, PartialEq, Eq)]
pub enum Error {
    /// The input env file does not exist; holds its path.
    InputFileNotFound(String),
    /// The output template file could not be created; holds its path.
    OutputFileCreationFailed(String),
    /// Reading the env file failed; holds the path and the cause.
    EnvFileReadError(String),
    /// Writing the template file failed; holds its path.
    EnvFileWriteError(String),
    /// A command-line argument was missing or unusable; holds the detail.
    InvalidArgument(String),
    /// Anything else; holds the detail.
    Unknown(String),
}

/// The description `message` returns for each error.
pub open spec fn message_spec(e: Error) -> Seq<char> {
    match e {
        Error::InputFileNotFound(p) => "Input file '"@ + p@ + "' not found"@,
        Error::OutputFileCreationFailed(p) => "Output file '"@ + p@ + "' could not be created"@,
        Error::EnvFileReadError(p) => "Failed to read .env file '"@ + p@ + "'"@,
        Error::EnvFileWriteError(p) => "Failed to write to .env.example file '"@ + p@ + "'"@,
        Error::InvalidArgument(m) => "Invalid command-line argument: "@ + m@,
        Error::Unknown(m) => "Unexpected error: "@ + m@,
    }
}

/// `pre`, `mid` and `post` in one string.
fn concat3(pre: &str, mid: &String, post: &str) -> (r: String)
    ensures
        r@ == pre@ + mid@ + post@,
{
    let mut r = pre.to_owned();
    r.append(mid.as_str());
    r.append(post);
    proof {
        assert(pre@ + mid@ + post@ =~= (pre@ + mid@) + post@);
    }
    r
}

/// `pre` and `mid` in one string.
fn concat2(pre: &str, mid: &String) -> (r: String)
    ensures
        r@ == pre@ + mid@,
{
    let mut r = pre.to_owned();
    r.append(mid.as_str());
    r
}

impl Error {
    /// The human-readable description of the error, as the tool prints it.
    pub fn message(&self) -> (r: String)
        ensures
            r@ == message_spec(*self),
    {
        match self {
            Error::InputFileNotFound(p) => concat3("Input file '", p, "' not found"),
            Error::OutputFileCreationFailed(p) => concat3(
                "Output file '",
                p,
                "' could not be created",
            ),
            Error::EnvFileReadError(p) => concat3("Failed to read .env file '", p, "'"),
            Error::EnvFileWriteError(p) => concat3(
                "Failed to write to .env.example file '",
                p,
                "'",
            ),
            Error::InvalidArgument(m) => concat2("Invalid command-line argument: ", m),
            Error::Unknown(m) => concat2("Unexpected error: ", m),
        }
    }
}

} // verus!
