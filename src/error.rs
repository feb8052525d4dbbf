use vstd::prelude::*;

verus! {

/// What went wrong while decoding a document.
#[derive(Clone, Copy, Debug, PartialEq, Eq, Structural)]
pub enum ErrorKind {
    /// A node has none of the shapes its field accepts.
    ShapeMismatch,
    /// A required field is absent.
    MissingRequiredField,
    /// A present field fails its validator.
    InvalidValue,
    /// A `needs` entry names a job that does not exist.
    DanglingReference,
    /// The `needs` relation holds a cycle.
    CyclicDependency,
    /// A key repeats where keys must be unique.
    DuplicateKey,
    /// A key that the decoder does not know, in strict mode.
    UnknownField,
}

/// A decode failure: its kind, the path from the document root to the
/// offending node, and the name it concerns (a key, a job id, a value).
#[derive(Debug)]
pub struct DecodeError {
    pub kind: ErrorKind,
    pub path: Vec<String>,
    pub subject: String,
}

impl DecodeError {
    /// An error of kind `kind` about `subject`, at the root.
    pub fn new(kind: ErrorKind, subject: String) -> (r: DecodeError)
        ensures
            r.kind == kind,
            r.path@.len() == 0,
            r.subject@ == subject@,
    {
        DecodeError { kind, path: Vec::new(), subject }
    }

    /// The same error, seen from one level further up the document.
    pub fn within(self, segment: &str) -> (r: DecodeError)
        ensures
            r.kind == self.kind,
            r.subject@ == self.subject@,
            r.path@.len() == self.path@.len() + 1,
            r.path@[0]@ == segment@,
            r.path@.subrange(1, r.path@.len() as int) == self.path@,
    {
        let mut path = self.path;
        path.insert(0, segment.to_string());
        DecodeError { kind: self.kind, path, subject: self.subject }
    }
}

/// How keys that the decoder does not know are treated.
#[derive(Clone, Copy, Debug, PartialEq, Eq, Structural)]
pub enum Mode {
    /// Unknown keys are rejected with `UnknownField`.
    Strict,
    /// Unknown keys are ignored.
    Lenient,
}

} // verus!
