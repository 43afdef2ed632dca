//! Classified failures shared by the scanner, the parser and the tree.

use vstd::prelude::*;

verus! {

/// What went wrong.
#[derive(Debug, Clone, Copy, PartialEq, Eq, Structural)]
pub enum ErrorKind {
    /// The text is lexically malformed.
    ParseError,
    /// Indentation is inconsistent, mixed, or changes by more than one level.
    IndentationError,
    /// A child with the requested key does not exist.
    KeyNotFound,
    /// A key could not be converted into the requested type.
    ConversionError,
    /// Exactly one value was required and the node holds none or several.
    MultipleValues,
}

/// A failure with its classification, a message and the source line it
/// was found on (`0` where no line applies).
#[derive(Debug, PartialEq, Eq)]
pub struct NcclError {
    pub kind: ErrorKind,
    pub message: String,
    pub line: u64,
}

/// The mathematical content of an [`NcclError`].
pub ghost struct ErrorView {
    pub kind: ErrorKind,
    pub message: Seq<char>,
    pub line: nat,
}

impl View for NcclError {
    type V = ErrorView;

    open spec fn view(&self) -> ErrorView {
        ErrorView { kind: self.kind, message: self.message@, line: self.line as nat }
    }
}

impl Clone for NcclError {
    fn clone(&self) -> (copy: NcclError)
        ensures
            copy == *self,
    {
        NcclError { kind: self.kind, message: self.message.clone(), line: self.line }
    }
}

/// The views of a list of errors, in order.
pub open spec fn error_views(errors: Seq<NcclError>) -> Seq<ErrorView> {
    errors.map_values(|e: NcclError| e@)
}

impl NcclError {
    /// Builds an error from its three parts.
    pub fn new(kind: ErrorKind, message: &str, line: u64) -> (e: NcclError)
        ensures
            e@ == (ErrorView { kind, message: message@, line: line as nat }),
    {
        NcclError { kind, message: message.to_owned(), line }
    }
}

} // verus!
