use vstd::prelude::*;

verus! {

/// Why a field or a message could not be decoded.
#[derive(Clone, Copy, Debug, PartialEq, Eq, Structural)]
pub enum FixError {
    /// An empty field, a field without `=`, or a field whose value is empty.
    MalformedField,
    /// A field at a fixed position carries another tag than the protocol demands.
    UnexpectedTag,
    /// BodyLength is not a base-10 unsigned integer that fits in `usize`.
    Parse,
    /// Bytes that must be text are not valid UTF-8.
    Encoding,
}

} // verus!
