//! What can go wrong between an instruction and its fragments.

use vstd::prelude::*;
use vstd::string::StringExecFns;

verus! {

/// Why bytes are no fragment, or fragments no instruction.
#[derive(Debug, PartialEq, Eq)]
pub enum FragmentError {
    /// Fewer bytes than a fragment header.
    TooShort,
    /// The payload is over the size cap.
    AssemblyTooLarge,
    /// The payload needs more fragments than the index can count.
    IndexTooLarge,
    /// The compressed stream is corrupt; the decompressor's words.
    Inflate(String),
    /// The payload is no instruction; the decoder's words.
    Parse(String),
}

/// What a `FragmentError` says.
#[verifier::ext_equal]
pub enum FragmentErrorView {
    TooShort,
    AssemblyTooLarge,
    IndexTooLarge,
    Inflate(Seq<char>),
    Parse(Seq<char>),
}

impl View for FragmentError {
    type V = FragmentErrorView;

    open spec fn view(&self) -> FragmentErrorView {
        match *self {
            FragmentError::TooShort => FragmentErrorView::TooShort,
            FragmentError::AssemblyTooLarge => FragmentErrorView::AssemblyTooLarge,
            FragmentError::IndexTooLarge => FragmentErrorView::IndexTooLarge,
            FragmentError::Inflate(words) => FragmentErrorView::Inflate(words@),
            FragmentError::Parse(words) => FragmentErrorView::Parse(words@),
        }
    }
}

/// The message of an error.
pub open spec fn fragment_message(e: FragmentErrorView) -> Seq<char> {
    match e {
        FragmentErrorView::TooShort => "fragment shorter than its 10-byte header"@,
        FragmentErrorView::AssemblyTooLarge => "reassembled payload over the size cap"@,
        FragmentErrorView::IndexTooLarge => "fragment index beyond the 15-bit wire limit"@,
        FragmentErrorView::Inflate(words) => "compressed stream failed to inflate: "@ + words,
        FragmentErrorView::Parse(words) => "inflated instruction failed to parse: "@ + words,
    }
}

impl FragmentError {
    /// The message of the error.
    pub fn to_string(&self) -> (r: String)
        ensures
            r@ == fragment_message(self@),
    {
        match self {
            FragmentError::TooShort => "fragment shorter than its 10-byte header".to_owned(),
            FragmentError::AssemblyTooLarge => "reassembled payload over the size cap".to_owned(),
            FragmentError::IndexTooLarge => {
                "fragment index beyond the 15-bit wire limit".to_owned()
            },
            FragmentError::Inflate(words) => {
                "compressed stream failed to inflate: ".to_owned().concat(words.as_str())
            },
            FragmentError::Parse(words) => {
                "inflated instruction failed to parse: ".to_owned().concat(words.as_str())
            },
        }
    }
}

} // verus!
