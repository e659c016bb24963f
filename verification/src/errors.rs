use vstd::prelude::*;
use crate::paths::FilePath;

verus! {

/// The error kinds the bundler can surface. Every error is fatal to a run;
/// each carries the canonical path of the offending file and, where one
/// applies, the line number of the problematic import.
#[derive(Debug)]
pub enum BundleError {
    /// A relative reference could not be anchored: the containing file has
    /// no parent directory.
    PathError { file: FilePath },
    /// A referenced file is absent from storage.
    FileNotFoundError { path: FilePath },
    /// Reading an existing file failed.
    ReadError { path: FilePath },
    /// An import keyword was matched but no usable path followed it.
    ImportSyntaxError { path: FilePath, line: usize },
    /// A looked-up identity was absent from the graph at inlining time.
    MissingNodeError { path: FilePath },
}

/// Mathematical model of a `BundleError`: paths become sequences of segments.
pub ghost enum ErrV {
    PathError { file: Seq<Seq<u8>> },
    FileNotFoundError { path: Seq<Seq<u8>> },
    ReadError { path: Seq<Seq<u8>> },
    ImportSyntaxError { path: Seq<Seq<u8>>, line: int },
    MissingNodeError { path: Seq<Seq<u8>> },
}

impl View for BundleError {
    type V = ErrV;

    open spec fn view(&self) -> ErrV {
        match self {
            BundleError::PathError { file } => ErrV::PathError { file: file@ },
            BundleError::FileNotFoundError { path } => ErrV::FileNotFoundError { path: path@ },
            BundleError::ReadError { path } => ErrV::ReadError { path: path@ },
            BundleError::ImportSyntaxError { path, line } => ErrV::ImportSyntaxError {
                path: path@,
                line: *line as int,
            },
            BundleError::MissingNodeError { path } => ErrV::MissingNodeError { path: path@ },
        }
    }
}

} // verus!
