//! What can go wrong when a session starts.

use vstd::prelude::*;
use vstd::string::StringExecFns;

verus! {

/// Why the output of the channel starts no session.
#[derive(Debug, PartialEq, Eq)]
pub enum MoshBootstrapError {
    /// The channel closed without a `MOSH CONNECT` line. `output` is the tail of
    /// what was said instead.
    NoConnect { output: String },
    /// A `MOSH CONNECT` line that names no port and key, where no other does.
    BadConnect(String),
    /// A `MOSH SSH_CONNECTION` line that does not name four things, or a second
    /// one.
    BadConnection(String),
}

/// What a `MoshBootstrapError` says.
#[verifier::ext_equal]
pub enum BootstrapErrorView {
    NoConnect { output: Seq<char> },
    BadConnect(Seq<char>),
    BadConnection(Seq<char>),
}

impl View for MoshBootstrapError {
    type V = BootstrapErrorView;

    open spec fn view(&self) -> BootstrapErrorView {
        match *self {
            MoshBootstrapError::NoConnect { output } => BootstrapErrorView::NoConnect {
                output: output@,
            },
            MoshBootstrapError::BadConnect(line) => BootstrapErrorView::BadConnect(line@),
            MoshBootstrapError::BadConnection(line) => BootstrapErrorView::BadConnection(line@),
        }
    }
}

/// The message of an error.
pub open spec fn bootstrap_message(e: BootstrapErrorView) -> Seq<char> {
    match e {
        BootstrapErrorView::NoConnect { output } =>
            "no MOSH CONNECT line (is mosh \u{2265} 1.4 installed on the server?): "@ + output,
        BootstrapErrorView::BadConnect(line) => "bad MOSH CONNECT line: "@ + line,
        BootstrapErrorView::BadConnection(line) => "bad MOSH SSH_CONNECTION line: "@ + line,
    }
}

impl MoshBootstrapError {
    /// The message of the error.
    pub fn to_string(&self) -> (r: String)
        ensures
            r@ == bootstrap_message(self@),
    {
        match self {
            MoshBootstrapError::NoConnect { output } => {
                let start = "no MOSH CONNECT line (is mosh \u{2265} 1.4 installed on the server?): ";
                start.to_owned().concat(output.as_str())
            },
            MoshBootstrapError::BadConnect(line) => {
                "bad MOSH CONNECT line: ".to_owned().concat(line.as_str())
            },
            MoshBootstrapError::BadConnection(line) => {
                "bad MOSH SSH_CONNECTION line: ".to_owned().concat(line.as_str())
            },
        }
    }
}

} // verus!
