//! The ways in which a scan can fail.

use vstd::prelude::*;
use vstd::string::*;

verus! {

/// A failure that ends the scan of one source.
#[derive(Clone, Debug, PartialEq, Eq)]
pub enum ScanError {
    /// The pattern was handed to the regex engine and did not compile.
    InvalidPattern { message: String },
    /// The source could not be opened, mapped or read.
    SourceAccess { message: String },
    /// A parallel worker did not finish its chunk.
    WorkerFailure,
}

/// The words that open the description of each kind of failure.
pub open spec fn error_label(error: ScanError) -> Seq<char> {
    match error {
        ScanError::InvalidPattern { .. } => "invalid pattern: "@,
        ScanError::SourceAccess { .. } => "cannot read source: "@,
        ScanError::WorkerFailure => "a parallel worker failed"@,
    }
}

/// The detail that follows the label: the message carried, if any.
pub open spec fn error_detail(error: ScanError) -> Seq<char> {
    match error {
        ScanError::InvalidPattern { message } => message@,
        ScanError::SourceAccess { message } => message@,
        ScanError::WorkerFailure => Seq::empty(),
    }
}

impl ScanError {
    /// A one-line description: the label of the kind, then the message.
    pub fn describe(&self) -> (text: String)
        ensures
            text@ == error_label(*self) + error_detail(*self),
    {
        match self {
            ScanError::InvalidPattern { message } => {
                let mut text: String = String::from_str("invalid pattern: ");
                text.append(message.as_str());
                text
            },
            ScanError::SourceAccess { message } => {
                let mut text: String = String::from_str("cannot read source: ");
                text.append(message.as_str());
                text
            },
            ScanError::WorkerFailure => {
                let text: String = String::from_str("a parallel worker failed");
                assert(text@ + Seq::<char>::empty() =~= text@);
                text
            },
        }
    }
}

} // verus!
