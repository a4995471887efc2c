//! Byte counts.

use vstd::prelude::*;
use vstd::std_specs::convert::FromSpecImpl;

verus! {

/// A number of bytes.
#[derive(Clone, Copy, Debug, PartialEq, Eq, Structural)]
pub struct IggyByteSize(pub u64);

impl IggyByteSize {
    /// The count as a plain integer.
    pub fn as_bytes_u64(&self) -> (bytes: u64)
        ensures
            bytes == self.0,
    {
        self.0
    }
}

impl From<u64> for IggyByteSize {
    fn from(bytes: u64) -> (size: IggyByteSize) {
        IggyByteSize(bytes)
    }
}

impl FromSpecImpl<u64> for IggyByteSize {
    open spec fn obeys_from_spec() -> bool {
        true
    }

    open spec fn from_spec(bytes: u64) -> IggyByteSize {
        IggyByteSize(bytes)
    }
}

/// Something with a size on the wire and on disk.
pub trait Sizeable {
    /// The encoded size.
    spec fn size_bytes(&self) -> IggyByteSize;

    /// Returns the encoded size.
    fn get_size_bytes(&self) -> (size: IggyByteSize)
        ensures
            size == self.size_bytes(),
    ;
}

/// Something with a footprint in memory.
pub trait RealSize {
    /// The bytes the value occupies in memory, bookkeeping included.
    spec fn footprint(&self) -> IggyByteSize;

    /// Returns the footprint.
    fn real_size(&self) -> (size: IggyByteSize)
        ensures
            size == self.footprint(),
    ;
}

} // verus!
