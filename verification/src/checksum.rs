//! Payload checksum.
//!
//! The checksum of a payload is its CRC-32 as used by IEEE 802.3, zlib and
//! PNG: reflected polynomial `0xEDB88320`, initial register `0xFFFFFFFF`,
//! final complement. The algorithm is part of the record format and never
//! changes.

use vstd::prelude::*;

verus! {

/// The reflected CRC-32 polynomial.
pub const POLYNOMIAL: u32 = 0xEDB8_8320;

/// One step of the shift register: divide by x, subtract the polynomial when
/// a one falls out.
pub open spec fn shift_once(register: u32) -> u32 {
    if register & 1 == 1 {
        (register >> 1) ^ POLYNOMIAL
    } else {
        register >> 1
    }
}

/// The register after `steps` shifts.
pub open spec fn shift_many(register: u32, steps: nat) -> u32
    decreases steps,
{
    if steps == 0 {
        register
    } else {
        shift_once(shift_many(register, (steps - 1) as nat))
    }
}

/// The register after one more input byte.
pub open spec fn feed_byte(register: u32, byte: u8) -> u32 {
    shift_many(register ^ (byte as u32), 8)
}

/// The register after all bytes of `data`, fed first to last.
pub open spec fn feed(register: u32, data: Seq<u8>) -> u32
    decreases data.len(),
{
    if data.len() == 0 {
        register
    } else {
        feed_byte(feed(register, data.drop_last()), data.last())
    }
}

/// CRC-32 of `data`.
pub open spec fn crc32(data: Seq<u8>) -> u32 {
    feed(0xFFFF_FFFF, data) ^ 0xFFFF_FFFF
}

fn step_byte(register: u32, byte: u8) -> (next: u32)
    ensures
        next == feed_byte(register, byte),
{
    let mut current: u32 = register ^ (byte as u32);
    let mut done: u8 = 0;
    while done < 8
        invariant
            done <= 8,
            current == shift_many(register ^ (byte as u32), done as nat),
        decreases 8 - done,
    {
        current = if current & 1 == 1 {
            (current >> 1) ^ POLYNOMIAL
        } else {
            current >> 1
        };
        done = done + 1;
    }
    current
}

/// Computes the checksum of a payload.
pub fn calculate(data: &[u8]) -> (checksum: u32)
    ensures
        checksum == crc32(data@),
{
    let mut register: u32 = 0xFFFF_FFFF;
    let mut index: usize = 0;
    while index < data.len()
        invariant
            index <= data.len(),
            register == feed(0xFFFF_FFFF, data@.take(index as int)),
        decreases data.len() - index,
    {
        proof {
            let next = data@.take(index + 1);
            assert(next.drop_last() == data@.take(index as int));
            assert(next.last() == data@[index as int]);
        }
        register = step_byte(register, data[index]);
        index = index + 1;
    }
    proof {
        assert(data@.take(index as int) == data@);
    }
    register ^ 0xFFFF_FFFF
}


} // verus!
