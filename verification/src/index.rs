//! The sparse indices of a segment.
//!
//! Every so many bytes of log, an entry is added to the segment's index
//! and another to its time index. An index entry maps a message's offset,
//! counted from the segment's base offset, to the position of its record
//! in the log; a time index entry maps the same offset to the message's
//! timestamp. Both files are arrays of fixed-width little-endian entries:
//!
//! ```text
//! index:       relative_offset u32 | position u32
//! time index:  relative_offset u32 | timestamp u64
//! ```
//!
//! Entries ascend strictly by offset; positions ascend strictly with them
//! and timestamps never descend. A reader finds the last entry at or
//! before its target by binary search and scans the log forward from
//! there.

use crate::buffer;
use crate::buffer::{contents, written};
use crate::error::IggyError;
use crate::segment_log::{first_record, read_record};
use bytes::{Bytes, BytesMut};
use vstd::bytes::{
    lemma_auto_spec_u32_to_from_le_bytes, lemma_auto_spec_u64_to_from_le_bytes,
    spec_u32_from_le_bytes, spec_u32_to_le_bytes, spec_u64_from_le_bytes, spec_u64_to_le_bytes,
    u32_from_le_bytes, u64_from_le_bytes,
};
use vstd::prelude::*;
use vstd::slice::slice_subrange;

verus! {

/// Bytes of log between two index entries, unless configured otherwise.
pub const DEFAULT_INDEX_INTERVAL: u32 = 4096;

/// Bytes of one index entry.
pub const INDEX_ENTRY_SIZE: usize = 8;

/// Bytes of one time index entry.
pub const TIME_INDEX_ENTRY_SIZE: usize = 12;

/// Where the record of a message begins.
#[derive(Clone, Copy, Debug, PartialEq, Eq, Structural)]
pub struct IndexEntry {
    pub relative_offset: u32,
    pub position: u32,
}

/// When a message was received.
#[derive(Clone, Copy, Debug, PartialEq, Eq, Structural)]
pub struct TimeIndexEntry {
    pub relative_offset: u32,
    pub timestamp: u64,
}

impl IndexEntry {
    /// The entry in its file.
    pub open spec fn encoding(self) -> Seq<u8> {
        spec_u32_to_le_bytes(self.relative_offset) + spec_u32_to_le_bytes(self.position)
    }
}

impl TimeIndexEntry {
    /// The entry in its file.
    pub open spec fn encoding(self) -> Seq<u8> {
        spec_u32_to_le_bytes(self.relative_offset) + spec_u64_to_le_bytes(self.timestamp)
    }
}

/// The index entry that eight bytes hold.
pub open spec fn index_entry_of(bytes: Seq<u8>) -> IndexEntry {
    IndexEntry {
        relative_offset: spec_u32_from_le_bytes(bytes.subrange(0, 4)),
        position: spec_u32_from_le_bytes(bytes.subrange(4, 8)),
    }
}

/// The time index entry that twelve bytes hold.
pub open spec fn time_entry_of(bytes: Seq<u8>) -> TimeIndexEntry {
    TimeIndexEntry {
        relative_offset: spec_u32_from_le_bytes(bytes.subrange(0, 4)),
        timestamp: spec_u64_from_le_bytes(bytes.subrange(4, 12)),
    }
}

/// The entries that an index file holds, when its length is a whole number
/// of entries.
pub open spec fn index_entries(bytes: Seq<u8>) -> Seq<IndexEntry> {
    Seq::new(bytes.len() / 8, |i: int| index_entry_of(bytes.subrange(8 * i, 8 * i + 8)))
}

/// The entries that a time index file holds, when its length is a whole
/// number of entries.
pub open spec fn time_entries(bytes: Seq<u8>) -> Seq<TimeIndexEntry> {
    Seq::new(bytes.len() / 12, |i: int| time_entry_of(bytes.subrange(12 * i, 12 * i + 12)))
}

/// The file that holds the given index entries.
pub open spec fn index_bytes(entries: Seq<IndexEntry>) -> Seq<u8>
    decreases entries.len(),
{
    if entries.len() == 0 {
        Seq::empty()
    } else {
        index_bytes(entries.drop_last()) + entries.last().encoding()
    }
}

/// The file that holds the given time index entries.
pub open spec fn time_index_bytes(entries: Seq<TimeIndexEntry>) -> Seq<u8>
    decreases entries.len(),
{
    if entries.len() == 0 {
        Seq::empty()
    } else {
        time_index_bytes(entries.drop_last()) + entries.last().encoding()
    }
}

/// Whether offsets and positions both ascend strictly.
pub open spec fn index_ascends(entries: Seq<IndexEntry>) -> bool {
    forall|i: int, j: int|
        0 <= i < j < entries.len() ==> (#[trigger] entries[i]).relative_offset < (
        #[trigger] entries[j]).relative_offset && entries[i].position < entries[j].position
}

/// Whether offsets ascend strictly and timestamps never descend.
pub open spec fn time_index_ascends(entries: Seq<TimeIndexEntry>) -> bool {
    forall|i: int, j: int|
        0 <= i < j < entries.len() ==> (#[trigger] entries[i]).relative_offset < (
        #[trigger] entries[j]).relative_offset && entries[i].timestamp <= entries[j].timestamp
}

/// An index file is as long as its entries are many, and reads back as
/// the entries it was written from.
pub proof fn lemma_index_round_trip(entries: Seq<IndexEntry>)
    ensures
        index_bytes(entries).len() == 8 * entries.len(),
        index_entries(index_bytes(entries)) == entries,
    decreases entries.len(),
{
    lemma_auto_spec_u32_to_from_le_bytes();
    if entries.len() > 0 {
        let rest = entries.drop_last();
        let last = entries.last();
        lemma_index_round_trip(rest);
        let bytes = index_bytes(entries);
        let read = index_entries(bytes);
        assert(bytes.len() == 8 * entries.len());
        assert forall|i: int| 0 <= i < entries.len() implies read[i] == entries[i] by {
            let chunk = bytes.subrange(8 * i, 8 * i + 8);
            if i < rest.len() {
                assert(chunk =~= index_bytes(rest).subrange(8 * i, 8 * i + 8));
                assert(index_entries(index_bytes(rest))[i] == rest[i]);
            } else {
                assert(chunk =~= last.encoding());
                assert(chunk.subrange(0, 4) =~= spec_u32_to_le_bytes(last.relative_offset));
                assert(chunk.subrange(4, 8) =~= spec_u32_to_le_bytes(last.position));
            }
        }
        assert(read =~= entries);
    } else {
        assert(index_entries(index_bytes(entries)) =~= entries);
    }
}

/// A time index file is as long as its entries are many, and reads back
/// as the entries it was written from.
pub proof fn lemma_time_index_round_trip(entries: Seq<TimeIndexEntry>)
    ensures
        time_index_bytes(entries).len() == 12 * entries.len(),
        time_entries(time_index_bytes(entries)) == entries,
    decreases entries.len(),
{
    lemma_auto_spec_u32_to_from_le_bytes();
    lemma_auto_spec_u64_to_from_le_bytes();
    if entries.len() > 0 {
        let rest = entries.drop_last();
        let last = entries.last();
        lemma_time_index_round_trip(rest);
        let bytes = time_index_bytes(entries);
        let read = time_entries(bytes);
        assert(bytes.len() == 12 * entries.len());
        assert forall|i: int| 0 <= i < entries.len() implies read[i] == entries[i] by {
            let chunk = bytes.subrange(12 * i, 12 * i + 12);
            if i < rest.len() {
                assert(chunk =~= time_index_bytes(rest).subrange(12 * i, 12 * i + 12));
                assert(time_entries(time_index_bytes(rest))[i] == rest[i]);
            } else {
                assert(chunk =~= last.encoding());
                assert(chunk.subrange(0, 4) =~= spec_u32_to_le_bytes(last.relative_offset));
                assert(chunk.subrange(4, 12) =~= spec_u64_to_le_bytes(last.timestamp));
            }
        }
        assert(read =~= entries);
    } else {
        assert(time_entries(time_index_bytes(entries)) =~= entries);
    }
}

} // verus!

verus! {

/// Entries that ascend from each one to the next ascend throughout.
proof fn lemma_index_ascends(entries: Seq<IndexEntry>)
    requires
        forall|i: int|
            0 <= i < entries.len() - 1 ==> (#[trigger] entries[i]).relative_offset < entries[i
                + 1].relative_offset && entries[i].position < entries[i + 1].position,
    ensures
        index_ascends(entries),
{
    assert forall|i: int, j: int| 0 <= i < j < entries.len() implies (
    #[trigger] entries[i]).relative_offset < (#[trigger] entries[j]).relative_offset
        && entries[i].position < entries[j].position by {
        lemma_index_step(entries, i, j);
    }
}

proof fn lemma_index_step(entries: Seq<IndexEntry>, i: int, j: int)
    requires
        forall|i: int|
            0 <= i < entries.len() - 1 ==> (#[trigger] entries[i]).relative_offset < entries[i
                + 1].relative_offset && entries[i].position < entries[i + 1].position,
        0 <= i < j < entries.len(),
    ensures
        entries[i].relative_offset < entries[j].relative_offset,
        entries[i].position < entries[j].position,
    decreases j - i,
{
    if i + 1 < j {
        lemma_index_step(entries, i + 1, j);
    }
    assert(entries[i].relative_offset < entries[i + 1].relative_offset);
}

/// Time entries that ascend from each one to the next ascend throughout.
proof fn lemma_time_index_ascends(entries: Seq<TimeIndexEntry>)
    requires
        forall|i: int|
            0 <= i < entries.len() - 1 ==> (#[trigger] entries[i]).relative_offset < entries[i
                + 1].relative_offset && entries[i].timestamp <= entries[i + 1].timestamp,
    ensures
        time_index_ascends(entries),
{
    assert forall|i: int, j: int| 0 <= i < j < entries.len() implies (
    #[trigger] entries[i]).relative_offset < (#[trigger] entries[j]).relative_offset
        && entries[i].timestamp <= entries[j].timestamp by {
        lemma_time_index_step(entries, i, j);
    }
}

proof fn lemma_time_index_step(entries: Seq<TimeIndexEntry>, i: int, j: int)
    requires
        forall|i: int|
            0 <= i < entries.len() - 1 ==> (#[trigger] entries[i]).relative_offset < entries[i
                + 1].relative_offset && entries[i].timestamp <= entries[i + 1].timestamp,
        0 <= i < j < entries.len(),
    ensures
        entries[i].relative_offset < entries[j].relative_offset,
        entries[i].timestamp <= entries[j].timestamp,
    decreases j - i,
{
    if i + 1 < j {
        lemma_time_index_step(entries, i + 1, j);
    }
    assert(entries[i].relative_offset < entries[i + 1].relative_offset);
}

/// Appends the entries of an index to `buffer`, in order.
pub fn encode_index(entries: &Vec<IndexEntry>, buffer: &mut BytesMut)
    ensures
        written(*final(buffer)) == written(*old(buffer)) + index_bytes(entries@),
{
    let mut index: usize = 0;
    proof {
        assert(written(*buffer) =~= written(*old(buffer)) + index_bytes(entries@.take(0)));
    }
    while index < entries.len()
        invariant
            index <= entries.len(),
            written(*buffer) == written(*old(buffer)) + index_bytes(entries@.take(index as int)),
        decreases entries.len() - index,
    {
        let entry = entries[index];
        proof {
            let longer = entries@.take(index + 1);
            assert(longer.drop_last() =~= entries@.take(index as int));
            assert(longer.last() == entry);
        }
        buffer::put_u32_le(buffer, entry.relative_offset);
        buffer::put_u32_le(buffer, entry.position);
        proof {
            assert(written(*buffer) =~= written(*old(buffer)) + index_bytes(
                entries@.take(index + 1),
            ));
        }
        index = index + 1;
    }
    proof {
        assert(entries@.take(index as int) =~= entries@);
    }
}

/// Appends the entries of a time index to `buffer`, in order.
pub fn encode_time_index(entries: &Vec<TimeIndexEntry>, buffer: &mut BytesMut)
    ensures
        written(*final(buffer)) == written(*old(buffer)) + time_index_bytes(entries@),
{
    let mut index: usize = 0;
    proof {
        assert(written(*buffer) =~= written(*old(buffer)) + time_index_bytes(
            entries@.take(0),
        ));
    }
    while index < entries.len()
        invariant
            index <= entries.len(),
            written(*buffer) == written(*old(buffer)) + time_index_bytes(
                entries@.take(index as int),
            ),
        decreases entries.len() - index,
    {
        let entry = entries[index];
        proof {
            let longer = entries@.take(index + 1);
            assert(longer.drop_last() =~= entries@.take(index as int));
            assert(longer.last() == entry);
        }
        buffer::put_u32_le(buffer, entry.relative_offset);
        buffer::put_u64_le(buffer, entry.timestamp);
        proof {
            assert(written(*buffer) =~= written(*old(buffer)) + time_index_bytes(
                entries@.take(index + 1),
            ));
        }
        index = index + 1;
    }
    proof {
        assert(entries@.take(index as int) =~= entries@);
    }
}

/// Reads the index entry that begins at byte `begin`.
fn read_index_entry(raw: &[u8], begin: usize) -> (entry: IndexEntry)
    requires
        begin + 8 <= raw@.len(),
    ensures
        entry == index_entry_of(raw@.subrange(begin as int, begin + 8)),
{
    let total = raw.len();
    let relative_offset = u32_from_le_bytes(slice_subrange(raw, begin, begin + 4));
    let position = u32_from_le_bytes(slice_subrange(raw, begin + 4, begin + 8));
    proof {
        let chunk = raw@.subrange(begin as int, begin + 8);
        assert(raw@.subrange(begin as int, begin + 4) =~= chunk.subrange(0, 4));
        assert(raw@.subrange(begin + 4, begin + 8) =~= chunk.subrange(4, 8));
    }
    IndexEntry { relative_offset, position }
}

/// Reads the time index entry that begins at byte `begin`.
fn read_time_entry(raw: &[u8], begin: usize) -> (entry: TimeIndexEntry)
    requires
        begin + 12 <= raw@.len(),
    ensures
        entry == time_entry_of(raw@.subrange(begin as int, begin + 12)),
{
    let total = raw.len();
    let relative_offset = u32_from_le_bytes(slice_subrange(raw, begin, begin + 4));
    let timestamp = u64_from_le_bytes(slice_subrange(raw, begin + 4, begin + 12));
    proof {
        let chunk = raw@.subrange(begin as int, begin + 12);
        assert(raw@.subrange(begin as int, begin + 4) =~= chunk.subrange(0, 4));
        assert(raw@.subrange(begin + 4, begin + 12) =~= chunk.subrange(4, 12));
    }
    TimeIndexEntry { relative_offset, timestamp }
}

/// Reads an index file. A file that is not a whole number of entries is
/// malformed; one whose offsets or positions do not ascend is corrupted.
pub fn decode_index(raw: &[u8]) -> (result: Result<Vec<IndexEntry>, IggyError>)
    ensures
        match result {
            Ok(entries) => raw@.len() % 8 == 0 && entries@ == index_entries(raw@)
                && index_ascends(entries@),
            Err(error) => if raw@.len() % 8 != 0 {
                error == IggyError::InvalidNumberEncoding
            } else {
                error == IggyError::CorruptedIndex && !index_ascends(index_entries(raw@))
            },
        },
{
    if raw.len() % INDEX_ENTRY_SIZE != 0 {
        return Err(IggyError::InvalidNumberEncoding);
    }
    let count = raw.len() / INDEX_ENTRY_SIZE;
    let ghost wanted = index_entries(raw@);
    let mut entries: Vec<IndexEntry> = Vec::new();
    let mut index: usize = 0;
    while index < count
        invariant
            index <= count,
            raw@.len() == 8 * count,
            raw@.len() <= usize::MAX,
            wanted == index_entries(raw@),
            wanted.len() == count,
            forall|i: int|
                0 <= i < count ==> #[trigger] wanted[i] == index_entry_of(
                    raw@.subrange(8 * i, 8 * i + 8),
                ),
            entries@ == wanted.take(index as int),
            forall|i: int|
                0 <= i < index - 1 ==> (#[trigger] wanted[i]).relative_offset < wanted[i
                    + 1].relative_offset && wanted[i].position < wanted[i + 1].position,
        decreases count - index,
    {
        let entry = read_index_entry(raw, 8 * index);
        assert(entry == wanted[index as int]);
        if index > 0 {
            let previous = entries[index - 1];
            if previous.relative_offset >= entry.relative_offset || previous.position
                >= entry.position {
                assert(wanted[index - 1] == previous);
                return Err(IggyError::CorruptedIndex);
            }
        }
        entries.push(entry);
        proof {
            assert(entries@ =~= wanted.take(index + 1));
        }
        index = index + 1;
    }
    proof {
        assert(wanted.take(index as int) =~= wanted);
        lemma_index_ascends(wanted);
    }
    Ok(entries)
}

/// Reads a time index file. A file that is not a whole number of entries
/// is malformed; one whose offsets do not ascend, or whose timestamps
/// descend, is corrupted.
pub fn decode_time_index(raw: &[u8]) -> (result: Result<Vec<TimeIndexEntry>, IggyError>)
    ensures
        match result {
            Ok(entries) => raw@.len() % 12 == 0 && entries@ == time_entries(raw@)
                && time_index_ascends(entries@),
            Err(error) => if raw@.len() % 12 != 0 {
                error == IggyError::InvalidNumberEncoding
            } else {
                error == IggyError::CorruptedIndex && !time_index_ascends(time_entries(raw@))
            },
        },
{
    if raw.len() % TIME_INDEX_ENTRY_SIZE != 0 {
        return Err(IggyError::InvalidNumberEncoding);
    }
    let count = raw.len() / TIME_INDEX_ENTRY_SIZE;
    let ghost wanted = time_entries(raw@);
    let mut entries: Vec<TimeIndexEntry> = Vec::new();
    let mut index: usize = 0;
    while index < count
        invariant
            index <= count,
            raw@.len() == 12 * count,
            raw@.len() <= usize::MAX,
            wanted == time_entries(raw@),
            wanted.len() == count,
            forall|i: int|
                0 <= i < count ==> #[trigger] wanted[i] == time_entry_of(
                    raw@.subrange(12 * i, 12 * i + 12),
                ),
            entries@ == wanted.take(index as int),
            forall|i: int|
                0 <= i < index - 1 ==> (#[trigger] wanted[i]).relative_offset < wanted[i
                    + 1].relative_offset && wanted[i].timestamp <= wanted[i + 1].timestamp,
        decreases count - index,
    {
        let entry = read_time_entry(raw, 12 * index);
        assert(entry == wanted[index as int]);
        if index > 0 {
            let previous = entries[index - 1];
            if previous.relative_offset >= entry.relative_offset || previous.timestamp
                > entry.timestamp {
                assert(wanted[index - 1] == previous);
                return Err(IggyError::CorruptedIndex);
            }
        }
        entries.push(entry);
        proof {
            assert(entries@ =~= wanted.take(index + 1));
        }
        index = index + 1;
    }
    proof {
        assert(wanted.take(index as int) =~= wanted);
        lemma_time_index_ascends(wanted);
    }
    Ok(entries)
}

/// Finds the last entry at or before the offset `target`, by binary
/// search: the place to start scanning the log from. Without such an
/// entry the scan starts at the log's first byte.
pub fn lookup(entries: &Vec<IndexEntry>, target: u32) -> (found: Option<usize>)
    requires
        index_ascends(entries@),
    ensures
        match found {
            Some(index) => {
                &&& index < entries@.len()
                &&& entries@[index as int].relative_offset <= target
                &&& index + 1 < entries@.len() ==> entries@[index + 1].relative_offset > target
            },
            None => entries@.len() == 0 || entries@[0].relative_offset > target,
        },
{
    if entries.len() == 0 || entries[0].relative_offset > target {
        return None;
    }
    let mut low: usize = 0;
    let mut high: usize = entries.len();
    while high - low > 1
        invariant
            0 <= low < high <= entries@.len(),
            index_ascends(entries@),
            entries@[low as int].relative_offset <= target,
            high < entries@.len() ==> entries@[high as int].relative_offset > target,
        decreases high - low,
    {
        let middle = low + (high - low) / 2;
        if entries[middle].relative_offset <= target {
            low = middle;
        } else {
            high = middle;
        }
    }
    Some(low)
}

/// Finds the last entry before `timestamp`, by binary search: every
/// message up to that entry's is older than `timestamp`, so the first
/// message that is not lies behind it. Without such an entry the scan
/// starts at the log's first byte.
pub fn lookup_before(entries: &Vec<TimeIndexEntry>, timestamp: u64) -> (found: Option<usize>)
    requires
        time_index_ascends(entries@),
    ensures
        match found {
            Some(index) => {
                &&& index < entries@.len()
                &&& entries@[index as int].timestamp < timestamp
                &&& index + 1 < entries@.len() ==> entries@[index + 1].timestamp >= timestamp
            },
            None => entries@.len() == 0 || entries@[0].timestamp >= timestamp,
        },
{
    if entries.len() == 0 || entries[0].timestamp >= timestamp {
        return None;
    }
    let mut low: usize = 0;
    let mut high: usize = entries.len();
    while high - low > 1
        invariant
            0 <= low < high <= entries@.len(),
            time_index_ascends(entries@),
            entries@[low as int].timestamp < timestamp,
            high < entries@.len() ==> entries@[high as int].timestamp >= timestamp,
        decreases high - low,
    {
        let middle = low + (high - low) / 2;
        if entries[middle].timestamp < timestamp {
            low = middle;
        } else {
            high = middle;
        }
    }
    Some(low)
}

/// Whether an entry agrees with the log of a segment that begins at
/// `base_offset`: a whole record stands at the entry's position, and it is
/// the record of the message with the entry's offset.
pub open spec fn agrees(entry: IndexEntry, log: Seq<u8>, base_offset: u64) -> bool {
    &&& entry.position <= log.len()
    &&& first_record(log.skip(entry.position as int)) is Some
    &&& first_record(log.skip(entry.position as int)).unwrap().offset == base_offset
        + entry.relative_offset
}

/// Checks an index against the log it belongs to.
pub fn verify_index(entries: &Vec<IndexEntry>, log: &Bytes, base_offset: u64) -> (result: Result<
    (),
    IggyError,
>)
    ensures
        match result {
            Ok(()) => forall|i: int|
                0 <= i < entries@.len() ==> agrees(
                    #[trigger] entries@[i],
                    contents(*log),
                    base_offset,
                ),
            Err(error) => error == IggyError::CorruptedIndex && exists|i: int|
                0 <= i < entries@.len() && !agrees(
                    #[trigger] entries@[i],
                    contents(*log),
                    base_offset,
                ),
        },
{
    let total = buffer::as_slice(log).len();
    let mut index: usize = 0;
    while index < entries.len()
        invariant
            index <= entries@.len(),
            total == contents(*log).len(),
            forall|i: int|
                0 <= i < index ==> agrees(#[trigger] entries@[i], contents(*log), base_offset),
        decreases entries@.len() - index,
    {
        let entry = entries[index];
        if entry.position as u64 > total as u64 {
            assert(!agrees(entries@[index as int], contents(*log), base_offset));
            return Err(IggyError::CorruptedIndex);
        }
        let found = match read_record(log, entry.position as usize) {
            Some((message, _)) => message.offset as u128 == base_offset as u128
                + entry.relative_offset as u128,
            None => false,
        };
        if !found {
            assert(!agrees(entries@[index as int], contents(*log), base_offset));
            return Err(IggyError::CorruptedIndex);
        }
        index = index + 1;
    }
    Ok(())
}

/// Decides whether the record that is about to be written at `position`
/// gets an index entry: the first record of a segment does, and so does
/// every record that begins `interval` bytes or more behind the record
/// indexed last.
pub fn entry_is_due(last_indexed: Option<u32>, position: u32, interval: u32) -> (due: bool)
    ensures
        due == match last_indexed {
            None => true,
            Some(last) => position >= last + interval,
        },
{
    match last_indexed {
        None => true,
        Some(last) => position as u64 >= last as u64 + interval as u64,
    }
}

} // verus!
