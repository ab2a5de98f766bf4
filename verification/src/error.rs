use vstd::prelude::*;

verus! {

/// The error taxonomy of the library.
///
/// Every operation returns either a value or one of these conditions;
/// nothing is swallowed or retried.
#[derive(Debug, Clone, Copy, PartialEq, Eq, Structural)]
pub enum Error {
    /// The requested id, index value or singleton is absent.
    NotFound,

    /// The value would violate a unique-index constraint.
    AlreadyExists,

    /// Serializing or deserializing a record failed.
    Encoding,

    /// A stored key is shorter than the minimum valid length for its region.
    MalformedKey,

    /// The underlying store reported an error. The store this crate
    /// ships never fails, so no operation here produces this
    /// condition; it stands in the taxonomy for backends that can.
    Internal,

    /// The storage location could not be set up. Produced only by
    /// store backends that bootstrap a storage location.
    CreateDirectory,
}

} // verus!
