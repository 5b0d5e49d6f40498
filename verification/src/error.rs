use vstd::prelude::*;

verus! {

/// The two failure kinds of the codec.
///
/// `InsufficientBytes` means the remaining buffer is shorter than the
/// current decode step requires; `InvalidFormat` means the content is
/// structurally wrong independent of length (for example, a textual
/// identifier that is not valid hex or has the wrong size).
#[derive(Debug, PartialEq, Eq, Clone, Structural)]
pub enum BitcoinError {
    InsufficientBytes,
    InvalidFormat,
}

} // verus!
