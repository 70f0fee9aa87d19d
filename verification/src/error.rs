//! The library's errors. An error from an outside crate is carried as the
//! text it prints.
use vstd::prelude::*;
use crate::text::{owned, append_str};

verus! {

pub enum ShotgunError {
    SpecRead { path: String, message: String },
    SpecParse { path: String, message: String },
    UnsupportedVersion(String),
    MappingParse { path: String, message: String },
    MappingWrite { path: String, message: String },
    UnmappedEndpoint(String),
    Upstream(String),
}

/// An error by its plain values.
pub enum ErrorView {
    SpecRead { path: Seq<char>, message: Seq<char> },
    SpecParse { path: Seq<char>, message: Seq<char> },
    UnsupportedVersion(Seq<char>),
    MappingParse { path: Seq<char>, message: Seq<char> },
    MappingWrite { path: Seq<char>, message: Seq<char> },
    UnmappedEndpoint(Seq<char>),
    Upstream(Seq<char>),
}

impl View for ShotgunError {
    type V = ErrorView;

    open spec fn view(&self) -> ErrorView {
        match self {
            ShotgunError::SpecRead { path, message } => ErrorView::SpecRead { path: path@, message: message@ },
            ShotgunError::SpecParse { path, message } => ErrorView::SpecParse { path: path@, message: message@ },
            ShotgunError::UnsupportedVersion(m) => ErrorView::UnsupportedVersion(m@),
            ShotgunError::MappingParse { path, message } => ErrorView::MappingParse { path: path@, message: message@ },
            ShotgunError::MappingWrite { path, message } => ErrorView::MappingWrite { path: path@, message: message@ },
            ShotgunError::UnmappedEndpoint(m) => ErrorView::UnmappedEndpoint(m@),
            ShotgunError::Upstream(m) => ErrorView::Upstream(m@),
        }
    }
}

/// The text an error prints.
pub open spec fn error_text(e: ErrorView) -> Seq<char> {
    match e {
        ErrorView::SpecRead { path, message } => "failed to read spec at "@ + path + ": "@ + message,
        ErrorView::SpecParse { path, message } => "failed to parse spec at "@ + path + ": "@ + message,
        ErrorView::UnsupportedVersion(m) => "unsupported OpenAPI version: "@ + m,
        ErrorView::MappingParse { path, message } => "failed to parse mapping file at "@ + path + ": "@ + message,
        ErrorView::MappingWrite { path, message } => "failed to write mapping file at "@ + path + ": "@ + message,
        ErrorView::UnmappedEndpoint(m) => "no target configured for endpoint "@ + m,
        ErrorView::Upstream(m) => "upstream request failed: "@ + m,
    }
}

fn joined(lead: &str, path: &String, message: &String) -> (r: String)
    ensures
        r@ == lead@ + path@ + ": "@ + message@,
{
    let mut r = owned(lead);
    append_str(&mut r, path.as_str());
    append_str(&mut r, ": ");
    append_str(&mut r, message.as_str());
    r
}

impl ShotgunError {
    /// The text the error prints.
    pub fn to_text(&self) -> (r: String)
        ensures
            r@ == error_text(self@),
    {
        match self {
            ShotgunError::SpecRead { path, message } => joined("failed to read spec at ", path, message),
            ShotgunError::SpecParse { path, message } => joined("failed to parse spec at ", path, message),
            ShotgunError::UnsupportedVersion(m) => {
                let mut r = owned("unsupported OpenAPI version: ");
                append_str(&mut r, m.as_str());
                r
            },
            ShotgunError::MappingParse { path, message } => joined("failed to parse mapping file at ", path, message),
            ShotgunError::MappingWrite { path, message } => joined("failed to write mapping file at ", path, message),
            ShotgunError::UnmappedEndpoint(m) => {
                let mut r = owned("no target configured for endpoint ");
                append_str(&mut r, m.as_str());
                r
            },
            ShotgunError::Upstream(m) => {
                let mut r = owned("upstream request failed: ");
                append_str(&mut r, m.as_str());
                r
            },
        }
    }
}

} // verus!
