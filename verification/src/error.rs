//! The ways in which a scan can fail.

use vstd::prelude::*;

verus! {

/// A failure that ends a scan.
#[derive(Debug, PartialEq, Eq)]
pub enum ScanError {
    /// Rotation was asked for and no target key was given.
    Configuration,
    /// The listing of the manifest files failed.
    Discovery { cause: String },
    /// A file could not be decoded into manifest documents.
    Parse { path: String, cause: String },
}

/// What a [`ScanError`] stands for in contracts.
pub enum ScanErrorView {
    Configuration,
    Discovery { cause: Seq<char> },
    Parse { path: Seq<char>, cause: Seq<char> },
}

impl View for ScanError {
    type V = ScanErrorView;

    open spec fn view(&self) -> ScanErrorView {
        match self {
            ScanError::Configuration => ScanErrorView::Configuration,
            ScanError::Discovery { cause } => ScanErrorView::Discovery { cause: cause@ },
            ScanError::Parse { path, cause } => ScanErrorView::Parse {
                path: path@,
                cause: cause@,
            },
        }
    }
}

} // verus!
