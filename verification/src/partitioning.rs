//! How a producer chooses the partition of a batch.

use crate::error::IggyError;
use vstd::bytes::{spec_u32_from_le_bytes, spec_u32_to_le_bytes, u32_from_le_bytes, u32_to_le_bytes};
use vstd::prelude::*;

verus! {

/// Longest messages key, in bytes.
pub const MAX_KEY_LENGTH: usize = 255;

/// The rule that maps a batch to a partition.
#[derive(Clone, Copy, Debug, PartialEq, Eq, Structural)]
pub enum PartitioningKind {
    /// Round-robin over the topic's partitions.
    Balanced,
    /// The partition whose id the value holds.
    PartitionId,
    /// The partition that the hash of the value selects.
    MessagesKey,
}

/// A partitioning as it arrives in a command: the rule, and the value the
/// rule works on with its length.
#[derive(Debug)]
pub struct Partitioning {
    pub kind: PartitioningKind,
    pub length: u8,
    pub value: Vec<u8>,
}

/// A partitioning as plain values.
pub ghost struct PartitioningValue {
    pub kind: PartitioningKind,
    pub length: u8,
    pub value: Seq<u8>,
}

impl View for Partitioning {
    type V = PartitioningValue;

    open spec fn view(&self) -> PartitioningValue {
        PartitioningValue { kind: self.kind, length: self.length, value: self.value@ }
    }
}

impl PartitioningValue {
    /// Balanced partitioning carries no value, a partition id is four bytes,
    /// and a messages key has between 1 and 255 bytes. The length field
    /// says how long the value is.
    pub open spec fn is_valid(self) -> bool {
        &&& self.length == self.value.len()
        &&& match self.kind {
            PartitioningKind::Balanced => self.value.len() == 0,
            PartitioningKind::PartitionId => self.value.len() == 4,
            PartitioningKind::MessagesKey => 1 <= self.value.len() <= 255,
        }
    }
}

impl Partitioning {
    /// Round-robin partitioning.
    pub fn balanced() -> (partitioning: Partitioning)
        ensures
            partitioning@ == (PartitioningValue {
                kind: PartitioningKind::Balanced,
                length: 0,
                value: Seq::empty(),
            }),
            partitioning@.is_valid(),
    {
        Partitioning { kind: PartitioningKind::Balanced, length: 0, value: Vec::new() }
    }

    /// What partitioning onto the partition with id `partition_id` holds:
    /// the id in four bytes, least significant first.
    pub open spec fn partition_id_value(partition_id: u32) -> PartitioningValue {
        PartitioningValue {
            kind: PartitioningKind::PartitionId,
            length: 4,
            value: spec_u32_to_le_bytes(partition_id),
        }
    }

    /// Partitioning onto the partition with id `partition_id`.
    pub fn partition_id(partition_id: u32) -> (partitioning: Partitioning)
        ensures
            partitioning@ == Self::partition_id_value(partition_id),
            partitioning@.is_valid(),
    {
        Partitioning {
            kind: PartitioningKind::PartitionId,
            length: 4,
            value: u32_to_le_bytes(partition_id),
        }
    }

    /// Partitioning by the hash of `key`, which must have between 1 and 255
    /// bytes.
    pub fn messages_key(key: Vec<u8>) -> (result: Result<Partitioning, IggyError>)
        ensures
            1 <= key@.len() <= 255 ==> result is Ok && result.unwrap()@.is_valid()
                && result.unwrap()@ == (PartitioningValue {
                kind: PartitioningKind::MessagesKey,
                length: key@.len() as u8,
                value: key@,
            }),
            !(1 <= key@.len() <= 255) ==> result is Err && result.unwrap_err()
                == IggyError::InvalidPartitioning,
    {
        if key.len() < 1 || key.len() > MAX_KEY_LENGTH {
            Err(IggyError::InvalidPartitioning)
        } else {
            Ok(Partitioning { kind: PartitioningKind::MessagesKey, length: key.len() as u8, value: key })
        }
    }

    /// Checks the partitioning of a command.
    pub fn validate(&self) -> (result: Result<(), IggyError>)
        ensures
            self@.is_valid() ==> result is Ok,
            !self@.is_valid() ==> result == Err::<(), IggyError>(IggyError::InvalidPartitioning),
    {
        let length = self.value.len();
        let fits = match self.kind {
            PartitioningKind::Balanced => length == 0,
            PartitioningKind::PartitionId => length == 4,
            PartitioningKind::MessagesKey => 1 <= length && length <= MAX_KEY_LENGTH,
        };
        if fits && self.length as usize == length {
            Ok(())
        } else {
            Err(IggyError::InvalidPartitioning)
        }
    }

    /// The partition id that a valid partitioning of kind `PartitionId`
    /// names.
    pub fn named_partition(&self) -> (id: Option<u32>)
        ensures
            id == if self.kind == PartitioningKind::PartitionId && self.value@.len() == 4 {
                Some(spec_u32_from_le_bytes(self.value@))
            } else {
                None
            },
    {
        match self.kind {
            PartitioningKind::PartitionId => {
                if self.value.len() == 4 {
                    Some(u32_from_le_bytes(self.value.as_slice()))
                } else {
                    None
                }
            },
            _ => None,
        }
    }
}

} // verus!
