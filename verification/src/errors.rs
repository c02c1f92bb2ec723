use vstd::prelude::*;

verus! {

/// Why a construction step was refused.
#[derive(Clone, Copy, Debug, PartialEq, Eq, Structural)]
pub enum Error {
    /// A required input was absent or empty.
    InvalidArgument,
    /// The attribute name is already part of the collection under construction.
    DuplicateAttribute,
    /// The decimal value is not a non-empty string of decimal digits.
    InvalidNumericFormat,
    /// The new builder or product could not be allocated. The operations of this
    /// library never end so: where memory runs out, the process stops. The kind is here
    /// for the layers around the library that hand out the handles.
    AllocationFailure,
}

} // verus!
