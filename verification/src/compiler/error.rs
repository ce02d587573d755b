//! Errors of the dataset compiler.
use vstd::prelude::*;

verus! {

/// Why the dataset could not be compiled.
#[derive(Debug, Clone, PartialEq, Eq)]
pub enum CompilerError {
    MissingColumn { column: String, path: String },
    InvalidInteger { value: String, column: String, path: String },
    UnverifiedExternalDomain { domain: String, gc_org_id: u32 },
    ConflictingOrganizations { domain: String, first: u32, second: u32 },
    UnknownArgument(String),
    MissingArgumentValue(String),
    SourceHashMismatch { file: String, expected: String, actual: String },
    MalformedTable { path: String },
}

/// The contents of a `CompilerError`, with its strings as character sequences.
pub enum CompilerErrorView {
    MissingColumn { column: Seq<char>, path: Seq<char> },
    InvalidInteger { value: Seq<char>, column: Seq<char>, path: Seq<char> },
    UnverifiedExternalDomain { domain: Seq<char>, gc_org_id: u32 },
    ConflictingOrganizations { domain: Seq<char>, first: u32, second: u32 },
    UnknownArgument(Seq<char>),
    MissingArgumentValue(Seq<char>),
    SourceHashMismatch { file: Seq<char>, expected: Seq<char>, actual: Seq<char> },
    MalformedTable { path: Seq<char> },
}

impl View for CompilerError {
    type V = CompilerErrorView;

    open spec fn view(&self) -> CompilerErrorView {
        match self {
            CompilerError::MissingColumn { column, path } => CompilerErrorView::MissingColumn {
                column: column@,
                path: path@,
            },
            CompilerError::InvalidInteger { value, column, path } => CompilerErrorView::InvalidInteger {
                value: value@,
                column: column@,
                path: path@,
            },
            CompilerError::UnverifiedExternalDomain { domain, gc_org_id } => CompilerErrorView::UnverifiedExternalDomain {
                domain: domain@,
                gc_org_id: *gc_org_id,
            },
            CompilerError::ConflictingOrganizations { domain, first, second } => CompilerErrorView::ConflictingOrganizations {
                domain: domain@,
                first: *first,
                second: *second,
            },
            CompilerError::UnknownArgument(a) => CompilerErrorView::UnknownArgument(a@),
            CompilerError::MissingArgumentValue(a) => CompilerErrorView::MissingArgumentValue(a@),
            CompilerError::SourceHashMismatch { file, expected, actual } => CompilerErrorView::SourceHashMismatch {
                file: file@,
                expected: expected@,
                actual: actual@,
            },
            CompilerError::MalformedTable { path } => CompilerErrorView::MalformedTable { path: path@ },
        }
    }
}

} // verus!
