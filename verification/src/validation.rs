//! What a content contract is described by, what it is handed, and what it
//! answers: descriptors, streams, validation results and their issues.

use vstd::prelude::*;

verus! {

/// The identifier of a contract.
#[derive(Clone, Debug, PartialEq, Eq)]
pub struct ContractId(pub String);

/// What names a contract: its identifier, version and representation.
#[derive(Clone, Debug, PartialEq, Eq)]
pub struct ContractDescriptor {
    pub id: ContractId,
    pub version: String,
    pub representation: String,
}

/// One reason why content does not hold, and where.
#[derive(Clone, Debug, PartialEq, Eq)]
pub struct ValidationIssue {
    pub code: String,
    pub message: String,
    pub path: Option<String>,
}

/// Whether content holds, and the issues that say why not.
#[derive(Clone, Debug, PartialEq, Eq)]
pub struct ValidationResult {
    pub valid: bool,
    pub issues: Vec<ValidationIssue>,
}

/// A contract that cannot be made or used.
#[derive(Clone, Debug, PartialEq, Eq)]
pub struct ContractError {
    pub message: String,
}

/// Content handed to a contract: its bytes, and the media type it was
/// labelled with, if any.
#[derive(Clone, Debug, PartialEq, Eq)]
pub struct Stream {
    bytes: Vec<u8>,
    media_type: Option<String>,
}

/// What a [`ValidationIssue`] holds.
pub struct IssueView {
    pub code: Seq<char>,
    pub message: Seq<char>,
    pub path: Option<Seq<char>>,
}

/// What a [`ValidationResult`] holds.
pub struct ValidationView {
    pub valid: bool,
    pub issues: Seq<IssueView>,
}

impl View for ValidationIssue {
    type V = IssueView;

    open spec fn view(&self) -> IssueView {
        IssueView { code: self.code@, message: self.message@, path: self.path.deep_view() }
    }
}

impl DeepView for ValidationIssue {
    type V = IssueView;

    open spec fn deep_view(&self) -> IssueView {
        self@
    }
}

impl View for ValidationResult {
    type V = ValidationView;

    open spec fn view(&self) -> ValidationView {
        ValidationView { valid: self.valid, issues: self.issues.deep_view() }
    }
}

impl Stream {
    pub fn new(bytes: Vec<u8>, media_type: Option<String>) -> (s: Stream)
        ensures
            s.bytes_view() == bytes@,
            s.media_type_view() == media_type.deep_view(),
    {
        Stream { bytes, media_type }
    }

    pub closed spec fn bytes_view(&self) -> Seq<u8> {
        self.bytes@
    }

    pub closed spec fn media_type_view(&self) -> Option<Seq<char>> {
        self.media_type.deep_view()
    }

    pub fn bytes(&self) -> (r: &[u8])
        ensures
            r@ == self.bytes_view(),
    {
        self.bytes.as_slice()
    }

    pub fn media_type(&self) -> (r: Option<&str>)
        ensures
            match self.media_type_view() {
                Some(m) => r matches Some(s) && s@ == m,
                None => r is None,
            },
    {
        match &self.media_type {
            Some(m) => Some(m.as_str()),
            None => None,
        }
    }
}

} // verus!
