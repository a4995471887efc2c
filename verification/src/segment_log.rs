//! The log file of a segment: records, one behind the other.
//!
//! A log is read from the front, record by record, for as long as a whole,
//! well-formed record stands at the reading position. Whatever follows the
//! last such record, a record cut short by a crash for one, is not part of
//! the log and is cut off when the segment is opened.

use crate::buffer;
use crate::buffer::{contents, written};
use crate::message::{
    decode_body, lemma_decode_any_body, lemma_decode_encoded_body, lemma_encode_decoded_body,
    lemma_length_prefix, MessageRecord, RetainedMessage,
};
use bytes::{Bytes, BytesMut};
use vstd::bytes::{spec_u32_from_le_bytes, u32_from_le_bytes};
use vstd::prelude::*;
use vstd::slice::slice_subrange;

verus! {

/// The number of bytes that the length prefix at the front of `bytes`
/// announces.
pub open spec fn announced(bytes: Seq<u8>) -> int {
    spec_u32_from_le_bytes(bytes.subrange(0, 4)) as int
}

/// The record at the front of `bytes`, if a whole, well-formed one stands
/// there.
pub open spec fn first_record(bytes: Seq<u8>) -> Option<MessageRecord> {
    if bytes.len() < 4 || bytes.len() < 4 + announced(bytes) {
        None
    } else {
        decode_body(bytes.subrange(4, 4 + announced(bytes)))
    }
}

/// The records of a log, read from the front until no whole, well-formed
/// record follows.
pub open spec fn scan(bytes: Seq<u8>) -> Seq<MessageRecord>
    decreases bytes.len(),
{
    match first_record(bytes) {
        None => Seq::empty(),
        Some(record) => seq![record] + scan(bytes.skip(4 + announced(bytes))),
    }
}

/// The number of bytes that the records of a log take: where the log ends
/// and what was cut short begins.
pub open spec fn valid_length(bytes: Seq<u8>) -> nat
    decreases bytes.len(),
{
    match first_record(bytes) {
        None => 0,
        Some(record) => (4 + announced(bytes) + valid_length(bytes.skip(4 + announced(bytes))))
            as nat,
    }
}

/// The bytes of a log that holds the given records.
pub open spec fn log_bytes(records: Seq<MessageRecord>) -> Seq<u8>
    decreases records.len(),
{
    if records.len() == 0 {
        Seq::empty()
    } else {
        records[0].encoding() + log_bytes(records.skip(1))
    }
}

/// Whether every record reads back as itself and has a length that the
/// 32-bit length prefix holds.
pub open spec fn all_storable(records: Seq<MessageRecord>) -> bool {
    forall|i: int|
        0 <= i < records.len() ==> (#[trigger] records[i]).is_canonical() && records[i].size()
            <= u32::MAX
}

/// A record that was read takes as many bytes as its length prefix said,
/// and reads back as itself.
pub proof fn lemma_first_record(bytes: Seq<u8>)
    requires
        first_record(bytes) is Some,
    ensures
        first_record(bytes).unwrap().size() == announced(bytes),
        first_record(bytes).unwrap().is_canonical(),
        first_record(bytes).unwrap().encoding() == bytes.take(4 + announced(bytes)),
{
    let body = bytes.subrange(4, 4 + announced(bytes));
    lemma_encode_decoded_body(body);
    let record = decode_body(body).unwrap();
    lemma_length_prefix(record);
    vstd::bytes::lemma_auto_spec_u32_to_from_le_bytes();
    assert(record.encoding() =~= bytes.take(4 + announced(bytes)));
}

/// A storable record is read back from the front of any bytes that begin
/// with its encoding.
proof fn lemma_first_of_encoding(record: MessageRecord, after: Seq<u8>)
    requires
        record.is_canonical(),
        record.size() <= u32::MAX,
    ensures
        first_record(record.encoding() + after) == Some(record),
        announced(record.encoding() + after) == record.size(),
        (record.encoding() + after).skip(4 + record.size() as int) == after,
{
    lemma_length_prefix(record);
    lemma_decode_encoded_body(record);
    let bytes = record.encoding() + after;
    assert(bytes.subrange(0, 4) =~= record.encoding().subrange(0, 4));
    assert(bytes.subrange(4, 4 + record.size() as int) =~= record.encoding().subrange(
        4,
        4 + record.size() as int,
    ));
    assert(bytes.skip(4 + record.size() as int) =~= after);
}

/// What is written can be read: a log that holds storable records reads
/// back as exactly those records, and all of its bytes are valid. So a
/// partition rebuilt from its log files holds every message it held, byte
/// for byte, at the offset it had.
pub proof fn lemma_scan_log_bytes(records: Seq<MessageRecord>)
    requires
        all_storable(records),
    ensures
        scan(log_bytes(records)) == records,
        valid_length(log_bytes(records)) == log_bytes(records).len(),
    decreases records.len(),
{
    if records.len() == 0 {
        assert(scan(log_bytes(records)) =~= records);
    } else {
        let first = records[0];
        let rest = records.skip(1);
        assert forall|i: int| 0 <= i < rest.len() implies (#[trigger] rest[i]).is_canonical()
            && rest[i].size() <= u32::MAX by {
            assert(rest[i] == records[i + 1]);
        }
        lemma_scan_log_bytes(rest);
        lemma_first_of_encoding(first, log_bytes(rest));
        lemma_length_prefix(first);
        assert(seq![first] + rest =~= records);
    }
}

/// Whether every record has a length that the 32-bit length prefix holds.
pub open spec fn all_fit(records: Seq<MessageRecord>) -> bool {
    forall|i: int| 0 <= i < records.len() ==> (#[trigger] records[i]).size() <= u32::MAX
}

/// The records as their bytes read.
pub open spec fn normalized(records: Seq<MessageRecord>) -> Seq<MessageRecord> {
    records.map_values(|record: MessageRecord| record.normalized())
}

/// Bytes survive a restart: a log that holds any records whose lengths
/// fit their prefixes reads back as the same records, message for message
/// and byte for byte, a message's headers of no bytes reading back as no
/// headers. So do the offsets, and so does the offset of the last message.
pub proof fn lemma_scan_any_log(records: Seq<MessageRecord>)
    requires
        all_fit(records),
    ensures
        scan(log_bytes(records)) == normalized(records),
        log_bytes(normalized(records)) == log_bytes(records),
        valid_length(log_bytes(records)) == log_bytes(records).len(),
    decreases records.len(),
{
    let read = normalized(records);
    assert forall|i: int| 0 <= i < read.len() implies (#[trigger] read[i]).is_canonical()
        && read[i].size() <= u32::MAX by {
        assert(records[i].size() <= u32::MAX);
        lemma_decode_any_body(records[i]);
        assert(read[i].header_bytes() =~= records[i].header_bytes());
    }
    lemma_scan_log_bytes(read);
    lemma_normalized_log(records);
}

/// Bytes survive a crash: a log that holds any records whose lengths fit
/// their prefixes, followed by a record that was cut short, reads back as
/// the records it holds and nothing more.
pub proof fn lemma_scan_any_torn_log(records: Seq<MessageRecord>, tail: Seq<u8>)
    requires
        all_fit(records),
        first_record(tail) is None,
    ensures
        scan(log_bytes(records) + tail) == normalized(records),
        valid_length(log_bytes(records) + tail) == log_bytes(records).len(),
{
    let read = normalized(records);
    assert forall|i: int| 0 <= i < read.len() implies (#[trigger] read[i]).is_canonical()
        && read[i].size() <= u32::MAX by {
        assert(records[i].size() <= u32::MAX);
        lemma_decode_any_body(records[i]);
        assert(read[i].header_bytes() =~= records[i].header_bytes());
    }
    lemma_normalized_log(records);
    lemma_scan_ignores_torn_tail(read, tail);
}

/// Normalizing records does not change the bytes of their log.
proof fn lemma_normalized_log(records: Seq<MessageRecord>)
    requires
        all_fit(records),
    ensures
        log_bytes(normalized(records)) == log_bytes(records),
    decreases records.len(),
{
    if records.len() > 0 {
        let rest = records.skip(1);
        assert forall|i: int| 0 <= i < rest.len() implies (#[trigger] rest[i]).size()
            <= u32::MAX by {
            assert(rest[i] == records[i + 1]);
        }
        lemma_normalized_log(rest);
        assert(records[0].size() <= u32::MAX);
        lemma_decode_any_body(records[0]);
        assert(normalized(records).skip(1) =~= normalized(rest));
    } else {
        assert(normalized(records) =~= records);
    }
}

/// A record cut short at the end of a log is not read: the scan of a log
/// followed by fewer bytes than a length prefix, or by a prefix that
/// announces more bytes than follow, gives the log's records and nothing
/// more.
pub proof fn lemma_scan_ignores_torn_tail(records: Seq<MessageRecord>, tail: Seq<u8>)
    requires
        all_storable(records),
        first_record(tail) is None,
    ensures
        scan(log_bytes(records) + tail) == records,
        valid_length(log_bytes(records) + tail) == log_bytes(records).len(),
    decreases records.len(),
{
    if records.len() == 0 {
        assert(log_bytes(records) + tail =~= tail);
        assert(scan(tail) =~= records);
    } else {
        let first = records[0];
        let rest = records.skip(1);
        assert forall|i: int| 0 <= i < rest.len() implies (#[trigger] rest[i]).is_canonical()
            && rest[i].size() <= u32::MAX by {
            assert(rest[i] == records[i + 1]);
        }
        lemma_scan_ignores_torn_tail(rest, tail);
        lemma_first_of_encoding(first, log_bytes(rest) + tail);
        lemma_length_prefix(first);
        assert(log_bytes(records) + tail =~= first.encoding() + (log_bytes(rest) + tail));
        assert(seq![first] + rest =~= records);
    }
}

} // verus!

verus! {

/// A log grows record by record: a log with one more record at its end is
/// the old log's bytes followed by that record's.
pub proof fn lemma_log_bytes_push(records: Seq<MessageRecord>, record: MessageRecord)
    ensures
        log_bytes(records.push(record)) == log_bytes(records) + record.encoding(),
    decreases records.len(),
{
    let longer = records.push(record);
    if records.len() == 0 {
        assert(longer.skip(1) =~= records);
        assert(longer[0] == record);
        assert(log_bytes(records) =~= Seq::<u8>::empty());
        assert(log_bytes(longer) == record.encoding() + log_bytes(longer.skip(1)));
        assert(log_bytes(longer) =~= log_bytes(records) + record.encoding());
    } else {
        lemma_log_bytes_push(records.skip(1), record);
        assert(longer.skip(1) =~= records.skip(1).push(record));
        assert(longer[0] == records[0]);
        assert(log_bytes(longer) =~= log_bytes(records) + record.encoding());
    }
}

/// Appends the records of the messages to `buffer`, in order.
pub fn write_log(messages: &Vec<RetainedMessage>, buffer: &mut BytesMut)
    ensures
        written(*final(buffer)) == written(*old(buffer)) + log_bytes(
            messages@.map_values(|message: RetainedMessage| message@),
        ),
{
    let ghost records = messages@.map_values(|message: RetainedMessage| message@);
    let mut index: usize = 0;
    proof {
        assert(log_bytes(records.take(0)) =~= Seq::<u8>::empty());
        assert(written(*buffer) =~= written(*old(buffer)) + Seq::<u8>::empty());
    }
    while index < messages.len()
        invariant
            index <= messages.len(),
            records == messages@.map_values(|message: RetainedMessage| message@),
            written(*buffer) == written(*old(buffer)) + log_bytes(records.take(index as int)),
        decreases messages.len() - index,
    {
        proof {
            let before = records.take(index as int);
            assert(records.take(index + 1) =~= before.push(records[index as int]));
            lemma_log_bytes_push(before, records[index as int]);
            assert(records[index as int] == messages@[index as int]@);
        }
        messages[index].extend(buffer);
        proof {
            assert(written(*buffer) =~= written(*old(buffer)) + log_bytes(
                records.take(index + 1),
            ));
        }
        index = index + 1;
    }
    proof {
        assert(records.take(index as int) =~= records);
    }
}

/// The records that a read delivers: those at the front of `bytes`, but
/// no more than `count` of them and no more than `budget` bytes of them.
pub open spec fn limited_scan(bytes: Seq<u8>, count: nat, budget: nat) -> Seq<MessageRecord>
    decreases bytes.len(),
{
    match first_record(bytes) {
        None => Seq::empty(),
        Some(record) => if count == 0 || 4 + announced(bytes) > budget {
            Seq::empty()
        } else {
            seq![record] + limited_scan(
                bytes.skip(4 + announced(bytes)),
                (count - 1) as nat,
                (budget - 4 - announced(bytes)) as nat,
            )
        },
    }
}

/// Reads one record at `position`, if a whole, well-formed one stands
/// there. Returns the message and the position behind it.
pub fn read_record(bytes: &Bytes, position: usize) -> (result: Option<(RetainedMessage, usize)>)
    requires
        position <= contents(*bytes).len(),
    ensures
        match result {
            Some((message, next)) => {
                &&& first_record(contents(*bytes).skip(position as int)) == Some(message@)
                &&& next == position + 4 + announced(contents(*bytes).skip(position as int))
                &&& next <= contents(*bytes).len()
            },
            None => first_record(contents(*bytes).skip(position as int)) is None,
        },
{
    let raw = buffer::as_slice(bytes);
    let total = raw.len();
    let ghost rest = contents(*bytes).skip(position as int);
    if total - position < 4 {
        return None;
    }
    let length = u32_from_le_bytes(slice_subrange(raw, position, position + 4));
    proof {
        assert(raw@.subrange(position as int, position + 4) =~= rest.subrange(0, 4));
    }
    let available: u64 = (total - position - 4) as u64;
    if available < length as u64 {
        return None;
    }
    let begin: usize = position + 4;
    let end: usize = begin + length as usize;
    proof {
        assert(contents(*bytes).subrange(begin as int, end as int) =~= rest.subrange(
            4,
            4 + announced(rest),
        ));
    }
    match RetainedMessage::try_from_bytes(buffer::slice(bytes, begin, end)) {
        Ok(message) => Some((message, end)),
        Err(_) => None,
    }
}

/// Reads a log from its first byte. Returns the messages it holds and the
/// number of bytes they take; whatever follows those bytes is to be cut
/// off.
pub fn open_log(bytes: &Bytes) -> (result: (Vec<RetainedMessage>, usize))
    ensures
        result.0@.map_values(|message: RetainedMessage| message@) == scan(contents(*bytes)),
        result.1 == valid_length(contents(*bytes)),
        result.1 <= contents(*bytes).len(),
{
    let ghost all = contents(*bytes);
    let mut messages: Vec<RetainedMessage> = Vec::new();
    let mut position: usize = 0;
    proof {
        assert(all.skip(0) =~= all);
        assert(messages@.map_values(|message: RetainedMessage| message@) + scan(all) =~= scan(
            all,
        ));
    }
    loop
        invariant
            all == contents(*bytes),
            position <= all.len(),
            scan(all) == messages@.map_values(|message: RetainedMessage| message@) + scan(
                all.skip(position as int),
            ),
            valid_length(all) == position + valid_length(all.skip(position as int)),
        ensures
            messages@.map_values(|message: RetainedMessage| message@) == scan(all),
            position == valid_length(all),
            position <= all.len(),
        decreases all.len() - position,
    {
        let ghost rest = all.skip(position as int);
        let ghost done = messages@.map_values(|message: RetainedMessage| message@);
        match read_record(bytes, position) {
            Some((message, next)) => {
                proof {
                    assert(rest.skip(4 + announced(rest)) =~= all.skip(next as int));
                    assert(messages@.push(message).map_values(|message: RetainedMessage| message@)
                        =~= done.push(message@));
                    assert(done + (seq![message@] + scan(all.skip(next as int))) =~= done.push(
                        message@,
                    ) + scan(all.skip(next as int)));
                }
                messages.push(message);
                position = next;
            },
            None => {
                proof {
                    assert(done + Seq::<MessageRecord>::empty() =~= done);
                }
                break ;
            },
        }
    }
    (messages, position)
}

/// Reads messages from a log, starting at byte `position`, which must be
/// where a record begins: up to `max_count` of them, stopping before the
/// record that would take the bytes read past `max_bytes`.
pub fn read_messages(bytes: &Bytes, position: usize, max_count: u32, max_bytes: u64) -> (messages:
    Vec<RetainedMessage>)
    requires
        position <= contents(*bytes).len(),
    ensures
        messages@.map_values(|message: RetainedMessage| message@) == limited_scan(
            contents(*bytes).skip(position as int),
            max_count as nat,
            max_bytes as nat,
        ),
        messages@.len() <= max_count,
{
    let ghost all = contents(*bytes);
    let ghost wanted = limited_scan(all.skip(position as int), max_count as nat, max_bytes as nat);
    let mut messages: Vec<RetainedMessage> = Vec::new();
    let mut at: usize = position;
    let mut count: u32 = max_count;
    let mut budget: u64 = max_bytes;
    proof {
        assert(messages@.map_values(|message: RetainedMessage| message@) + wanted =~= wanted);
    }
    loop
        invariant
            all == contents(*bytes),
            at <= all.len(),
            messages@.len() + count == max_count,
            wanted == messages@.map_values(|message: RetainedMessage| message@) + limited_scan(
                all.skip(at as int),
                count as nat,
                budget as nat,
            ),
        ensures
            messages@.map_values(|message: RetainedMessage| message@) == wanted,
            messages@.len() <= max_count,
        decreases all.len() - at,
    {
        let ghost rest = all.skip(at as int);
        let ghost done = messages@.map_values(|message: RetainedMessage| message@);
        match read_record(bytes, at) {
            Some((message, next)) => {
                let taken = (next - at) as u64;
                if count == 0 || taken > budget {
                    proof {
                        assert(done + Seq::<MessageRecord>::empty() =~= done);
                    }
                    break ;
                }
                proof {
                    assert(rest.skip(4 + announced(rest)) =~= all.skip(next as int));
                    assert(messages@.push(message).map_values(|message: RetainedMessage| message@)
                        =~= done.push(message@));
                    let tail = limited_scan(
                        all.skip(next as int),
                        (count - 1) as nat,
                        (budget - taken) as nat,
                    );
                    assert(done + (seq![message@] + tail) =~= done.push(message@) + tail);
                }
                messages.push(message);
                at = next;
                count = count - 1;
                budget = budget - taken;
            },
            None => {
                proof {
                    assert(done + Seq::<MessageRecord>::empty() =~= done);
                }
                break ;
            },
        }
    }
    messages
}

} // verus!
