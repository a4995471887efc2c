//! The binary encoding of commands.
//!
//! Every integer is little-endian. Names and keys carry their length in
//! one byte, payloads and headers in four. The parts of a command follow
//! one another in a fixed order with nothing in between:
//!
//! ```text
//! identifier     kind u8 (1 numeric, 2 name) | length u8 | value
//! partitioning   kind u8 (1 balanced, 2 partition id, 3 messages key) | length u8 | value
//! consumer       kind u8 (1 consumer, 2 consumer group) | id u32
//! strategy       kind u8 (1 offset, 2 timestamp, 3 first, 4 latest, 5 next) | value u64
//! message        id u128 | headers_length u32 | headers | payload_length u32 | payload
//!
//! send           stream | topic | partitioning | messages to the end
//! poll           consumer | stream | topic | partition id u32 (0 for none) |
//!                strategy | count u32 | auto_commit u8
//! flush          stream | topic | partition id u32 | fsync u8
//! ```
//!
//! A numeric identifier's value is its id in four bytes.

use crate::buffer;
use crate::buffer::{contents, written};
use crate::commands::{
    Consumer, ConsumerKind, FlushUnsavedBuffer, PollMessages, PollingStrategy, SendMessages,
};
use crate::error::IggyError;
use crate::headers::{
    all_valid, decode_entries, decode_headers, encode_entries, encode_headers, encoded_len,
    entries_of, lemma_decode_encoded_entries, lemma_encoded_len, HeaderEntry,
};
use crate::identifier::{Identifier, IdentifierValue};
use crate::message::{low_32_bits, Message};
use crate::partitioning::{Partitioning, PartitioningKind, PartitioningValue};
use bytes::BytesMut;
use vstd::bytes::{
    lemma_auto_spec_u128_to_from_le_bytes, lemma_auto_spec_u32_to_from_le_bytes,
    lemma_auto_spec_u64_to_from_le_bytes, spec_u128_from_le_bytes, spec_u128_to_le_bytes,
    spec_u32_from_le_bytes, spec_u32_to_le_bytes, spec_u64_from_le_bytes, spec_u64_to_le_bytes,
    u128_from_le_bytes, u32_from_le_bytes, u64_from_le_bytes,
};
use vstd::prelude::*;
use vstd::slice::{slice_subrange, slice_to_vec};

verus! {

/// An identifier on the wire.
pub open spec fn identifier_bytes(identifier: IdentifierValue) -> Seq<u8> {
    match identifier {
        IdentifierValue::Numeric(id) => seq![1u8, 4u8] + spec_u32_to_le_bytes(id),
        IdentifierValue::Named(name) => seq![2u8, name.len() as u8] + name,
    }
}

/// The identifier at the front of `bytes` and the number of bytes it
/// takes, if a valid one stands there.
pub open spec fn read_identifier(bytes: Seq<u8>) -> Option<(IdentifierValue, int)> {
    if bytes.len() < 2 {
        None
    } else if bytes[0] == 1 {
        if bytes[1] != 4 || bytes.len() < 6 || spec_u32_from_le_bytes(bytes.subrange(2, 6)) == 0 {
            None
        } else {
            Some((IdentifierValue::Numeric(spec_u32_from_le_bytes(bytes.subrange(2, 6))), 6))
        }
    } else if bytes[0] == 2 {
        if bytes[1] == 0 || bytes.len() < 2 + bytes[1] {
            None
        } else {
            Some((IdentifierValue::Named(bytes.subrange(2, 2 + bytes[1])), 2 + bytes[1]))
        }
    } else {
        None
    }
}

/// A valid identifier is read back from the front of any bytes that begin
/// with its encoding.
pub proof fn lemma_read_identifier(identifier: IdentifierValue, after: Seq<u8>)
    requires
        identifier.is_valid(),
    ensures
        read_identifier(identifier_bytes(identifier) + after) == Some(
            (identifier, identifier_bytes(identifier).len() as int),
        ),
{
    lemma_auto_spec_u32_to_from_le_bytes();
    let bytes = identifier_bytes(identifier) + after;
    match identifier {
        IdentifierValue::Numeric(id) => {
            assert(bytes[0] == 1 && bytes[1] == 4);
            assert(bytes.subrange(2, 6) =~= spec_u32_to_le_bytes(id));
        },
        IdentifierValue::Named(name) => {
            assert(bytes[0] == 2 && bytes[1] == name.len());
            assert(bytes.subrange(2, 2 + name.len() as int) =~= name);
        },
    }
}

/// What is read as an identifier is valid, and the bytes it was read from
/// are its encoding.
pub proof fn lemma_identifier_bytes(bytes: Seq<u8>)
    requires
        read_identifier(bytes) is Some,
    ensures
        read_identifier(bytes).unwrap().0.is_valid(),
        0 < read_identifier(bytes).unwrap().1 <= bytes.len(),
        identifier_bytes(read_identifier(bytes).unwrap().0) == bytes.take(
            read_identifier(bytes).unwrap().1,
        ),
{
    lemma_auto_spec_u32_to_from_le_bytes();
    let (identifier, taken) = read_identifier(bytes).unwrap();
    match identifier {
        IdentifierValue::Numeric(id) => {
            assert(spec_u32_to_le_bytes(id) == bytes.subrange(2, 6));
            assert(identifier_bytes(identifier) =~= bytes.take(taken));
        },
        IdentifierValue::Named(name) => {
            assert(identifier_bytes(identifier) =~= bytes.take(taken));
        },
    }
}

/// Appends an identifier to `buffer`.
pub fn write_identifier(identifier: &Identifier, buffer: &mut BytesMut)
    ensures
        written(*final(buffer)) == written(*old(buffer)) + identifier_bytes(identifier@),
{
    match identifier.get_u32_value() {
        Some(id) => {
            buffer::put_u8(buffer, 1);
            buffer::put_u8(buffer, 4);
            buffer::put_u32_le(buffer, id);
            proof {
                assert(written(*buffer) =~= written(*old(buffer)) + identifier_bytes(
                    identifier@,
                ));
            }
        },
        None => match identifier.get_name() {
            Some(name) => {
                buffer::put_u8(buffer, 2);
                buffer::put_u8(buffer, name.len() as u8);
                buffer::put_slice(buffer, name.as_slice());
                proof {
                    assert(written(*buffer) =~= written(*old(buffer)) + identifier_bytes(
                        identifier@,
                    ));
                }
            },
            None => {},
        },
    }
}

/// Reads the identifier at `position`. Returns it with the position
/// behind it.
pub fn parse_identifier_at(raw: &[u8], position: usize) -> (result: Result<
    (Identifier, usize),
    IggyError,
>)
    requires
        position <= raw@.len(),
    ensures
        match result {
            Ok((identifier, next)) => read_identifier(raw@.skip(position as int)) == Some(
                (identifier@, next - position),
            ) && position < next <= raw@.len(),
            Err(error) => read_identifier(raw@.skip(position as int)) is None && error
                == IggyError::InvalidIdentifier,
        },
{
    let ghost rest = raw@.skip(position as int);
    if raw.len() - position < 2 {
        return Err(IggyError::InvalidIdentifier);
    }
    let kind = raw[position];
    let length = raw[position + 1] as usize;
    assert(rest[0] == kind && rest[1] == length);
    if kind == 1 {
        if length != 4 || raw.len() - position < 6 {
            return Err(IggyError::InvalidIdentifier);
        }
        let id = u32_from_le_bytes(slice_subrange(raw, position + 2, position + 6));
        proof {
            assert(raw@.subrange(position + 2, position + 6) =~= rest.subrange(2, 6));
        }
        match Identifier::numeric(id) {
            Ok(identifier) => Ok((identifier, position + 6)),
            Err(error) => Err(error),
        }
    } else if kind == 2 {
        if length == 0 || raw.len() - position - 2 < length {
            return Err(IggyError::InvalidIdentifier);
        }
        let name = slice_to_vec(slice_subrange(raw, position + 2, position + 2 + length));
        proof {
            assert(raw@.subrange(position + 2, position + 2 + length) =~= rest.subrange(
                2,
                2 + length,
            ));
        }
        match Identifier::from_name(name) {
            Ok(identifier) => Ok((identifier, position + 2 + length)),
            Err(error) => Err(error),
        }
    } else {
        Err(IggyError::InvalidIdentifier)
    }
}

} // verus!

verus! {

impl PartitioningKind {
    /// The byte that stands for this kind on the wire.
    pub open spec fn code(self) -> u8 {
        match self {
            PartitioningKind::Balanced => 1,
            PartitioningKind::PartitionId => 2,
            PartitioningKind::MessagesKey => 3,
        }
    }

    /// Returns the wire code of the kind.
    pub fn as_code(&self) -> (code: u8)
        ensures
            code == self.code(),
    {
        match self {
            PartitioningKind::Balanced => 1,
            PartitioningKind::PartitionId => 2,
            PartitioningKind::MessagesKey => 3,
        }
    }
}

/// The kind of partitioning that a wire code stands for; balanced for any
/// byte that is no code.
pub open spec fn partitioning_kind_of(code: u8) -> PartitioningKind {
    if code == 2 {
        PartitioningKind::PartitionId
    } else if code == 3 {
        PartitioningKind::MessagesKey
    } else {
        PartitioningKind::Balanced
    }
}

/// A partitioning on the wire.
pub open spec fn partitioning_bytes(partitioning: PartitioningValue) -> Seq<u8> {
    seq![partitioning.kind.code(), partitioning.length] + partitioning.value
}

/// The partitioning at the front of `bytes` and the number of bytes it
/// takes, if a valid one stands there.
pub open spec fn read_partitioning(bytes: Seq<u8>) -> Option<(PartitioningValue, int)> {
    if bytes.len() < 2 || !(1 <= bytes[0] <= 3) || bytes.len() < 2 + bytes[1] {
        None
    } else {
        let partitioning = PartitioningValue {
            kind: partitioning_kind_of(bytes[0]),
            length: bytes[1],
            value: bytes.subrange(2, 2 + bytes[1]),
        };
        if partitioning.is_valid() {
            Some((partitioning, 2 + bytes[1]))
        } else {
            None
        }
    }
}

/// A valid partitioning is read back from the front of any bytes that
/// begin with its encoding.
pub proof fn lemma_read_partitioning(partitioning: PartitioningValue, after: Seq<u8>)
    requires
        partitioning.is_valid(),
    ensures
        read_partitioning(partitioning_bytes(partitioning) + after) == Some(
            (partitioning, partitioning_bytes(partitioning).len() as int),
        ),
{
    let bytes = partitioning_bytes(partitioning) + after;
    assert(bytes[0] == partitioning.kind.code() && bytes[1] == partitioning.length);
    assert(bytes.subrange(2, 2 + partitioning.length) =~= partitioning.value);
}

/// What is read as a partitioning is valid, and the bytes it was read
/// from are its encoding.
pub proof fn lemma_partitioning_bytes(bytes: Seq<u8>)
    requires
        read_partitioning(bytes) is Some,
    ensures
        read_partitioning(bytes).unwrap().0.is_valid(),
        0 < read_partitioning(bytes).unwrap().1 <= bytes.len(),
        partitioning_bytes(read_partitioning(bytes).unwrap().0) == bytes.take(
            read_partitioning(bytes).unwrap().1,
        ),
{
    let (partitioning, taken) = read_partitioning(bytes).unwrap();
    assert(partitioning_bytes(partitioning) =~= bytes.take(taken));
}

/// Appends a partitioning to `buffer`.
pub fn write_partitioning(partitioning: &Partitioning, buffer: &mut BytesMut)
    ensures
        written(*final(buffer)) == written(*old(buffer)) + partitioning_bytes(partitioning@),
{
    buffer::put_u8(buffer, partitioning.kind.as_code());
    buffer::put_u8(buffer, partitioning.length);
    buffer::put_slice(buffer, partitioning.value.as_slice());
    proof {
        assert(written(*buffer) =~= written(*old(buffer)) + partitioning_bytes(partitioning@));
    }
}

/// Reads the partitioning at `position`. Returns it with the position
/// behind it.
pub fn parse_partitioning_at(raw: &[u8], position: usize) -> (result: Result<
    (Partitioning, usize),
    IggyError,
>)
    requires
        position <= raw@.len(),
    ensures
        match result {
            Ok((partitioning, next)) => read_partitioning(raw@.skip(position as int)) == Some(
                (partitioning@, next - position),
            ) && position < next <= raw@.len(),
            Err(error) => read_partitioning(raw@.skip(position as int)) is None && error
                == IggyError::InvalidPartitioning,
        },
{
    let ghost rest = raw@.skip(position as int);
    if raw.len() - position < 2 {
        return Err(IggyError::InvalidPartitioning);
    }
    let code = raw[position];
    let length = raw[position + 1];
    assert(rest[0] == code && rest[1] == length);
    let kind = if code == 1 {
        PartitioningKind::Balanced
    } else if code == 2 {
        PartitioningKind::PartitionId
    } else if code == 3 {
        PartitioningKind::MessagesKey
    } else {
        return Err(IggyError::InvalidPartitioning);
    };
    if raw.len() - position - 2 < length as usize {
        return Err(IggyError::InvalidPartitioning);
    }
    let end = position + 2 + length as usize;
    let value = slice_to_vec(slice_subrange(raw, position + 2, end));
    proof {
        assert(raw@.subrange(position + 2, end as int) =~= rest.subrange(2, 2 + length));
    }
    let partitioning = Partitioning { kind, length, value };
    match partitioning.validate() {
        Ok(()) => Ok((partitioning, end)),
        Err(error) => Err(error),
    }
}

impl ConsumerKind {
    /// The byte that stands for this kind on the wire.
    pub open spec fn code(self) -> u8 {
        match self {
            ConsumerKind::Consumer => 1,
            ConsumerKind::ConsumerGroup => 2,
        }
    }
}

/// A consumer on the wire.
pub open spec fn consumer_bytes(consumer: Consumer) -> Seq<u8> {
    seq![consumer.kind.code()] + spec_u32_to_le_bytes(consumer.id)
}

/// The consumer that the first five bytes hold, if they hold one.
pub open spec fn read_consumer(bytes: Seq<u8>) -> Option<Consumer> {
    if bytes.len() < 5 || !(1 <= bytes[0] <= 2) {
        None
    } else {
        Some(
            Consumer {
                kind: if bytes[0] == 1 {
                    ConsumerKind::Consumer
                } else {
                    ConsumerKind::ConsumerGroup
                },
                id: spec_u32_from_le_bytes(bytes.subrange(1, 5)),
            },
        )
    }
}

/// A polling strategy on the wire. The strategies that carry no value
/// write a zero.
pub open spec fn strategy_bytes(strategy: PollingStrategy) -> Seq<u8> {
    match strategy {
        PollingStrategy::Offset(offset) => seq![1u8] + spec_u64_to_le_bytes(offset),
        PollingStrategy::Timestamp(timestamp) => seq![2u8] + spec_u64_to_le_bytes(timestamp),
        PollingStrategy::First => seq![3u8] + spec_u64_to_le_bytes(0),
        PollingStrategy::Latest(count) => seq![4u8] + spec_u64_to_le_bytes(count),
        PollingStrategy::Next => seq![5u8] + spec_u64_to_le_bytes(0),
    }
}

/// The polling strategy that the first nine bytes hold, if they hold one.
pub open spec fn read_strategy(bytes: Seq<u8>) -> Option<PollingStrategy> {
    if bytes.len() < 9 {
        None
    } else {
        let value = spec_u64_from_le_bytes(bytes.subrange(1, 9));
        if bytes[0] == 1 {
            Some(PollingStrategy::Offset(value))
        } else if bytes[0] == 2 {
            Some(PollingStrategy::Timestamp(value))
        } else if bytes[0] == 3 && value == 0 {
            Some(PollingStrategy::First)
        } else if bytes[0] == 4 {
            Some(PollingStrategy::Latest(value))
        } else if bytes[0] == 5 && value == 0 {
            Some(PollingStrategy::Next)
        } else {
            None
        }
    }
}

/// Consumers and strategies are read back from their encodings.
pub proof fn lemma_read_consumer_and_strategy(
    consumer: Consumer,
    strategy: PollingStrategy,
    after: Seq<u8>,
)
    ensures
        consumer_bytes(consumer).len() == 5,
        strategy_bytes(strategy).len() == 9,
        read_consumer(consumer_bytes(consumer) + after) == Some(consumer),
        read_strategy(strategy_bytes(strategy) + after) == Some(strategy),
{
    lemma_auto_spec_u32_to_from_le_bytes();
    lemma_auto_spec_u64_to_from_le_bytes();
    let first = consumer_bytes(consumer) + after;
    assert(first[0] == consumer.kind.code());
    assert(first.subrange(1, 5) =~= spec_u32_to_le_bytes(consumer.id));
    let second = strategy_bytes(strategy) + after;
    match strategy {
        PollingStrategy::Offset(value) => {
            assert(second[0] == 1);
            assert(second.subrange(1, 9) =~= spec_u64_to_le_bytes(value));
        },
        PollingStrategy::Timestamp(value) => {
            assert(second[0] == 2);
            assert(second.subrange(1, 9) =~= spec_u64_to_le_bytes(value));
        },
        PollingStrategy::First => {
            assert(second[0] == 3);
            assert(second.subrange(1, 9) =~= spec_u64_to_le_bytes(0));
        },
        PollingStrategy::Latest(value) => {
            assert(second[0] == 4);
            assert(second.subrange(1, 9) =~= spec_u64_to_le_bytes(value));
        },
        PollingStrategy::Next => {
            assert(second[0] == 5);
            assert(second.subrange(1, 9) =~= spec_u64_to_le_bytes(0));
        },
    }
}

/// Appends a consumer to `buffer`.
pub fn write_consumer(consumer: &Consumer, buffer: &mut BytesMut)
    ensures
        written(*final(buffer)) == written(*old(buffer)) + consumer_bytes(*consumer),
{
    let code: u8 = match consumer.kind {
        ConsumerKind::Consumer => 1,
        ConsumerKind::ConsumerGroup => 2,
    };
    buffer::put_u8(buffer, code);
    buffer::put_u32_le(buffer, consumer.id);
    proof {
        assert(written(*buffer) =~= written(*old(buffer)) + consumer_bytes(*consumer));
    }
}

/// Appends a polling strategy to `buffer`.
pub fn write_strategy(strategy: &PollingStrategy, buffer: &mut BytesMut)
    ensures
        written(*final(buffer)) == written(*old(buffer)) + strategy_bytes(*strategy),
{
    let (code, value): (u8, u64) = match strategy {
        PollingStrategy::Offset(offset) => (1, *offset),
        PollingStrategy::Timestamp(timestamp) => (2, *timestamp),
        PollingStrategy::First => (3, 0),
        PollingStrategy::Latest(count) => (4, *count),
        PollingStrategy::Next => (5, 0),
    };
    buffer::put_u8(buffer, code);
    buffer::put_u64_le(buffer, value);
    proof {
        assert(written(*buffer) =~= written(*old(buffer)) + strategy_bytes(*strategy));
    }
}

/// Reads the consumer at `position`, which takes five bytes.
pub fn parse_consumer_at(raw: &[u8], position: usize) -> (result: Option<Consumer>)
    requires
        position <= raw@.len(),
    ensures
        result == read_consumer(raw@.skip(position as int)),
{
    let ghost rest = raw@.skip(position as int);
    if raw.len() - position < 5 {
        return None;
    }
    let code = raw[position];
    assert(rest[0] == code);
    let id = u32_from_le_bytes(slice_subrange(raw, position + 1, position + 5));
    proof {
        assert(raw@.subrange(position + 1, position + 5) =~= rest.subrange(1, 5));
    }
    if code == 1 {
        Some(Consumer { kind: ConsumerKind::Consumer, id })
    } else if code == 2 {
        Some(Consumer { kind: ConsumerKind::ConsumerGroup, id })
    } else {
        None
    }
}

/// Reads the polling strategy at `position`, which takes nine bytes.
pub fn parse_strategy_at(raw: &[u8], position: usize) -> (result: Option<PollingStrategy>)
    requires
        position <= raw@.len(),
    ensures
        result == read_strategy(raw@.skip(position as int)),
{
    let ghost rest = raw@.skip(position as int);
    if raw.len() - position < 9 {
        return None;
    }
    let code = raw[position];
    assert(rest[0] == code);
    let value = u64_from_le_bytes(slice_subrange(raw, position + 1, position + 9));
    proof {
        assert(raw@.subrange(position + 1, position + 9) =~= rest.subrange(1, 9));
    }
    if code == 1 {
        Some(PollingStrategy::Offset(value))
    } else if code == 2 {
        Some(PollingStrategy::Timestamp(value))
    } else if code == 3 && value == 0 {
        Some(PollingStrategy::First)
    } else if code == 4 {
        Some(PollingStrategy::Latest(value))
    } else if code == 5 && value == 0 {
        Some(PollingStrategy::Next)
    } else {
        None
    }
}

} // verus!

verus! {

/// What a flush command holds.
pub ghost struct FlushValue {
    pub stream: IdentifierValue,
    pub topic: IdentifierValue,
    pub partition_id: u32,
    pub fsync: bool,
}

impl View for FlushUnsavedBuffer {
    type V = FlushValue;

    open spec fn view(&self) -> FlushValue {
        FlushValue {
            stream: self.stream_id@,
            topic: self.topic_id@,
            partition_id: self.partition_id,
            fsync: self.fsync,
        }
    }
}

/// A flag on the wire.
pub open spec fn flag_byte(flag: bool) -> u8 {
    if flag {
        1
    } else {
        0
    }
}

/// A flush command on the wire.
pub open spec fn flush_bytes(command: FlushValue) -> Seq<u8> {
    identifier_bytes(command.stream) + identifier_bytes(command.topic) + spec_u32_to_le_bytes(
        command.partition_id,
    ) + seq![flag_byte(command.fsync)]
}

/// The flush command that `bytes` hold, from the first byte to the last,
/// or why they hold none.
pub open spec fn decode_flush(bytes: Seq<u8>) -> Result<FlushValue, IggyError> {
    match read_identifier(bytes) {
        None => Err(IggyError::InvalidIdentifier),
        Some((stream, first)) => match read_identifier(bytes.skip(first)) {
            None => Err(IggyError::InvalidIdentifier),
            Some((topic, second)) => {
                let rest = bytes.skip(first + second);
                if rest.len() != 5 || rest[4] > 1 {
                    Err(IggyError::InvalidNumberEncoding)
                } else {
                    Ok(
                        FlushValue {
                            stream,
                            topic,
                            partition_id: spec_u32_from_le_bytes(rest.subrange(0, 4)),
                            fsync: rest[4] == 1,
                        },
                    )
                }
            },
        },
    }
}

/// Decoding undoes encoding: a flush command with valid identifiers is
/// read back from its bytes.
pub proof fn lemma_flush_round_trip(command: FlushValue)
    requires
        command.stream.is_valid(),
        command.topic.is_valid(),
    ensures
        decode_flush(flush_bytes(command)) == Ok::<FlushValue, IggyError>(command),
{
    lemma_auto_spec_u32_to_from_le_bytes();
    let stream = identifier_bytes(command.stream);
    let topic = identifier_bytes(command.topic);
    let tail = spec_u32_to_le_bytes(command.partition_id) + seq![flag_byte(command.fsync)];
    let bytes = flush_bytes(command);
    assert(bytes =~= stream + (topic + tail));
    lemma_read_identifier(command.stream, topic + tail);
    assert(bytes.skip(stream.len() as int) =~= topic + tail);
    lemma_read_identifier(command.topic, tail);
    let rest = bytes.skip((stream.len() + topic.len()) as int);
    assert(rest =~= tail);
    assert(rest.subrange(0, 4) =~= spec_u32_to_le_bytes(command.partition_id));
}

impl FlushUnsavedBuffer {
    /// Appends the command to `buffer`.
    pub fn extend(&self, buffer: &mut BytesMut)
        ensures
            written(*final(buffer)) == written(*old(buffer)) + flush_bytes(self@),
    {
        write_identifier(&self.stream_id, buffer);
        write_identifier(&self.topic_id, buffer);
        buffer::put_u32_le(buffer, self.partition_id);
        buffer::put_u8(
            buffer,
            if self.fsync {
                1
            } else {
                0
            },
        );
        proof {
            assert(written(*buffer) =~= written(*old(buffer)) + flush_bytes(self@));
        }
    }

    /// Reads a command from its bytes.
    pub fn from_bytes(raw: &[u8]) -> (result: Result<FlushUnsavedBuffer, IggyError>)
        ensures
            match result {
                Ok(command) => decode_flush(raw@) == Ok::<FlushValue, IggyError>(command@),
                Err(error) => decode_flush(raw@) == Err::<FlushValue, IggyError>(error),
            },
    {
        proof {
            assert(raw@.skip(0) =~= raw@);
        }
        let (stream_id, first) = match parse_identifier_at(raw, 0) {
            Ok(read) => read,
            Err(error) => {
                return Err(error);
            },
        };
        let (topic_id, second) = match parse_identifier_at(raw, first) {
            Ok(read) => read,
            Err(error) => {
                return Err(error);
            },
        };
        let ghost rest = raw@.skip(second as int);
        if raw.len() - second != 5 || raw[second + 4] > 1 {
            assert(raw.len() - second == 5 ==> rest[4] == raw@[second + 4]);
            return Err(IggyError::InvalidNumberEncoding);
        }
        let partition_id = u32_from_le_bytes(slice_subrange(raw, second, second + 4));
        let fsync = raw[second + 4] == 1;
        proof {
            assert(raw@.subrange(second as int, second + 4) =~= rest.subrange(0, 4));
            assert(rest[4] == raw@[second + 4]);
        }
        Ok(FlushUnsavedBuffer { stream_id, topic_id, partition_id, fsync })
    }
}

/// What a poll command holds.
pub ghost struct PollValue {
    pub consumer: Consumer,
    pub stream: IdentifierValue,
    pub topic: IdentifierValue,
    pub partition_id: Option<u32>,
    pub strategy: PollingStrategy,
    pub count: u32,
    pub auto_commit: bool,
}

impl View for PollMessages {
    type V = PollValue;

    open spec fn view(&self) -> PollValue {
        PollValue {
            consumer: self.consumer,
            stream: self.stream_id@,
            topic: self.topic_id@,
            partition_id: self.partition_id,
            strategy: self.strategy,
            count: self.count,
            auto_commit: self.auto_commit,
        }
    }
}

/// A partition id on the wire: zero stands for none.
pub open spec fn partition_code(partition_id: Option<u32>) -> u32 {
    match partition_id {
        Some(id) => id,
        None => 0,
    }
}

/// What follows the identifiers of a poll command.
pub open spec fn poll_tail(command: PollValue) -> Seq<u8> {
    spec_u32_to_le_bytes(partition_code(command.partition_id)) + strategy_bytes(command.strategy)
        + spec_u32_to_le_bytes(command.count) + seq![flag_byte(command.auto_commit)]
}

/// A poll command on the wire.
pub open spec fn poll_bytes(command: PollValue) -> Seq<u8> {
    consumer_bytes(command.consumer) + identifier_bytes(command.stream) + identifier_bytes(
        command.topic,
    ) + poll_tail(command)
}

/// The poll command that `bytes` hold, from the first byte to the last,
/// or why they hold none.
pub open spec fn decode_poll(bytes: Seq<u8>) -> Result<PollValue, IggyError> {
    match read_consumer(bytes) {
        None => Err(IggyError::InvalidNumberEncoding),
        Some(consumer) => match read_identifier(bytes.skip(5)) {
            None => Err(IggyError::InvalidIdentifier),
            Some((stream, first)) => match read_identifier(bytes.skip(5 + first)) {
                None => Err(IggyError::InvalidIdentifier),
                Some((topic, second)) => {
                    let rest = bytes.skip(5 + first + second);
                    if rest.len() != 18 || rest[17] > 1 || read_strategy(rest.skip(4)) is None {
                        Err(IggyError::InvalidNumberEncoding)
                    } else {
                        let partition = spec_u32_from_le_bytes(rest.subrange(0, 4));
                        Ok(
                            PollValue {
                                consumer,
                                stream,
                                topic,
                                partition_id: if partition == 0 {
                                    None
                                } else {
                                    Some(partition)
                                },
                                strategy: read_strategy(rest.skip(4)).unwrap(),
                                count: spec_u32_from_le_bytes(rest.subrange(13, 17)),
                                auto_commit: rest[17] == 1,
                            },
                        )
                    }
                },
            },
        },
    }
}

/// Decoding undoes encoding: a poll command with valid identifiers, and
/// with a partition id that is not zero if it has one, is read back from
/// its bytes.
pub proof fn lemma_poll_round_trip(command: PollValue)
    requires
        command.stream.is_valid(),
        command.topic.is_valid(),
        command.partition_id != Some(0u32),
    ensures
        decode_poll(poll_bytes(command)) == Ok::<PollValue, IggyError>(command),
{
    lemma_auto_spec_u32_to_from_le_bytes();
    let consumer = consumer_bytes(command.consumer);
    let stream = identifier_bytes(command.stream);
    let topic = identifier_bytes(command.topic);
    let tail = poll_tail(command);
    let bytes = poll_bytes(command);
    assert(bytes =~= consumer + (stream + (topic + tail)));
    lemma_read_consumer_and_strategy(
        command.consumer,
        command.strategy,
        stream + (topic + tail),
    );
    assert(bytes.skip(5) =~= stream + (topic + tail));
    lemma_read_identifier(command.stream, topic + tail);
    assert(bytes.skip(5 + stream.len() as int) =~= topic + tail);
    lemma_read_identifier(command.topic, tail);
    let rest = bytes.skip((5 + stream.len() + topic.len()) as int);
    assert(rest =~= tail);
    let behind = spec_u32_to_le_bytes(command.count) + seq![flag_byte(command.auto_commit)];
    lemma_read_consumer_and_strategy(command.consumer, command.strategy, behind);
    assert(rest.skip(4) =~= strategy_bytes(command.strategy) + behind);
    assert(rest.subrange(0, 4) =~= spec_u32_to_le_bytes(partition_code(command.partition_id)));
    assert(rest.subrange(13, 17) =~= spec_u32_to_le_bytes(command.count));
    assert(rest[17] == flag_byte(command.auto_commit));
}

impl PollMessages {
    /// Appends the command to `buffer`.
    pub fn extend(&self, buffer: &mut BytesMut)
        ensures
            written(*final(buffer)) == written(*old(buffer)) + poll_bytes(self@),
    {
        write_consumer(&self.consumer, buffer);
        write_identifier(&self.stream_id, buffer);
        write_identifier(&self.topic_id, buffer);
        let partition: u32 = match self.partition_id {
            Some(id) => id,
            None => 0,
        };
        buffer::put_u32_le(buffer, partition);
        write_strategy(&self.strategy, buffer);
        buffer::put_u32_le(buffer, self.count);
        buffer::put_u8(
            buffer,
            if self.auto_commit {
                1
            } else {
                0
            },
        );
        proof {
            assert(written(*buffer) =~= written(*old(buffer)) + poll_bytes(self@));
        }
    }

    /// Reads a command from its bytes.
    pub fn from_bytes(raw: &[u8]) -> (result: Result<PollMessages, IggyError>)
        ensures
            match result {
                Ok(command) => decode_poll(raw@) == Ok::<PollValue, IggyError>(command@),
                Err(error) => decode_poll(raw@) == Err::<PollValue, IggyError>(error),
            },
    {
        proof {
            assert(raw@.skip(0) =~= raw@);
        }
        let consumer = match parse_consumer_at(raw, 0) {
            Some(consumer) => consumer,
            None => {
                return Err(IggyError::InvalidNumberEncoding);
            },
        };
        let (stream_id, first) = match parse_identifier_at(raw, 5) {
            Ok(read) => read,
            Err(error) => {
                return Err(error);
            },
        };
        let (topic_id, second) = match parse_identifier_at(raw, first) {
            Ok(read) => read,
            Err(error) => {
                return Err(error);
            },
        };
        let ghost rest = raw@.skip(second as int);
        if raw.len() - second != 18 || raw[second + 17] > 1 {
            assert(raw.len() - second == 18 ==> rest[17] == raw@[second + 17]);
            return Err(IggyError::InvalidNumberEncoding);
        }
        proof {
            assert(rest.skip(4) =~= raw@.skip(second + 4));
            assert(rest[17] == raw@[second + 17]);
        }
        let strategy = match parse_strategy_at(raw, second + 4) {
            Some(strategy) => strategy,
            None => {
                return Err(IggyError::InvalidNumberEncoding);
            },
        };
        let partition = u32_from_le_bytes(slice_subrange(raw, second, second + 4));
        let count = u32_from_le_bytes(slice_subrange(raw, second + 13, second + 17));
        proof {
            assert(raw@.subrange(second as int, second + 4) =~= rest.subrange(0, 4));
            assert(raw@.subrange(second + 13, second + 17) =~= rest.subrange(13, 17));
        }
        Ok(
            PollMessages {
                stream_id,
                topic_id,
                partition_id: if partition == 0 {
                    None
                } else {
                    Some(partition)
                },
                consumer,
                strategy,
                count,
                auto_commit: raw[second + 17] == 1,
            },
        )
    }
}

} // verus!

verus! {

/// What a message of a send command holds.
pub ghost struct MessageValue {
    pub id: u128,
    pub headers: Option<Seq<HeaderEntry>>,
    pub payload: Seq<u8>,
}

/// What a message holds on the wire: its id, headers and payload. Its
/// length field is not sent; it is the payload's length.
pub open spec fn message_value(message: Message) -> MessageValue {
    MessageValue {
        id: message.id,
        headers: match message.headers {
            Some(headers) => Some(entries_of(headers@)),
            None => None,
        },
        payload: contents(message.payload),
    }
}

/// What the messages of a batch hold.
pub open spec fn message_values(messages: Seq<Message>) -> Seq<MessageValue> {
    messages.map_values(|message: Message| message_value(message))
}

impl MessageValue {
    /// The headers in wire format: nothing when there are none.
    pub open spec fn header_bytes(self) -> Seq<u8> {
        match self.headers {
            Some(entries) => encode_entries(entries),
            None => Seq::empty(),
        }
    }

    /// The message on the wire.
    pub open spec fn encoding(self) -> Seq<u8> {
        spec_u128_to_le_bytes(self.id) + spec_u32_to_le_bytes(
            low_32_bits(self.header_bytes().len()),
        ) + self.header_bytes() + spec_u32_to_le_bytes(low_32_bits(self.payload.len()))
            + self.payload
    }

    /// A message that reads back as itself: its headers, when it has any,
    /// are a list of at least one valid entry, and the lengths of headers
    /// and payload fit their 32-bit length fields.
    pub open spec fn is_canonical(self) -> bool {
        &&& self.payload.len() <= u32::MAX
        &&& match self.headers {
            Some(entries) => entries.len() > 0 && all_valid(entries) && encoded_len(entries)
                <= u32::MAX,
            None => true,
        }
    }
}

/// The message at the front of `bytes` and the number of bytes it takes,
/// if a well-formed one stands there.
pub open spec fn read_message(bytes: Seq<u8>) -> Option<(MessageValue, int)> {
    if bytes.len() < 20 {
        None
    } else {
        let headers_length = spec_u32_from_le_bytes(bytes.subrange(16, 20)) as int;
        if bytes.len() < 24 + headers_length {
            None
        } else {
            let payload_length = spec_u32_from_le_bytes(
                bytes.subrange(20 + headers_length, 24 + headers_length),
            ) as int;
            let stored = bytes.subrange(20, 20 + headers_length);
            if bytes.len() < 24 + headers_length + payload_length || (headers_length > 0
                && decode_entries(stored) is None) {
                None
            } else {
                Some(
                    (
                        MessageValue {
                            id: spec_u128_from_le_bytes(bytes.subrange(0, 16)),
                            headers: if headers_length > 0 {
                                decode_entries(stored)
                            } else {
                                None
                            },
                            payload: bytes.subrange(
                                24 + headers_length,
                                24 + headers_length + payload_length,
                            ),
                        },
                        24 + headers_length + payload_length,
                    ),
                )
            }
        }
    }
}

/// The messages that `bytes` hold, if they are well-formed messages from
/// the first byte to the last.
pub open spec fn read_messages(bytes: Seq<u8>) -> Option<Seq<MessageValue>>
    decreases bytes.len(),
{
    if bytes.len() == 0 {
        Some(Seq::empty())
    } else {
        match read_message(bytes) {
            None => None,
            Some((message, taken)) => match read_messages(bytes.skip(taken)) {
                None => None,
                Some(rest) => Some(seq![message] + rest),
            },
        }
    }
}

/// The messages of a batch on the wire: each message's bytes, in order.
pub open spec fn messages_bytes(messages: Seq<MessageValue>) -> Seq<u8>
    decreases messages.len(),
{
    if messages.len() == 0 {
        Seq::empty()
    } else {
        messages[0].encoding() + messages_bytes(messages.skip(1))
    }
}

/// Whether every message of a batch is canonical.
pub open spec fn all_canonical(messages: Seq<MessageValue>) -> bool {
    forall|i: int| 0 <= i < messages.len() ==> (#[trigger] messages[i]).is_canonical()
}

/// A canonical message is read back from the front of any bytes that
/// begin with its encoding.
pub proof fn lemma_read_message(message: MessageValue, after: Seq<u8>)
    requires
        message.is_canonical(),
    ensures
        read_message(message.encoding() + after) == Some(
            (message, message.encoding().len() as int),
        ),
        message.encoding().len() >= 24,
{
    lemma_auto_spec_u128_to_from_le_bytes();
    lemma_auto_spec_u32_to_from_le_bytes();
    let stored = message.header_bytes();
    let length = stored.len() as int;
    match message.headers {
        Some(entries) => {
            lemma_encoded_len(entries);
            lemma_decode_encoded_entries(entries);
            assert(entries[0].is_valid());
            assert(encoded_len(entries) >= 7) by {
                assert(encoded_len(entries) == entries[0].encoded_len() + encoded_len(
                    entries.skip(1),
                ));
            }
        },
        None => {},
    }
    let bytes = message.encoding() + after;
    assert(bytes.subrange(0, 16) =~= spec_u128_to_le_bytes(message.id));
    assert(bytes.subrange(16, 20) =~= spec_u32_to_le_bytes(low_32_bits(stored.len())));
    assert(bytes.subrange(20, 20 + length) =~= stored);
    assert(bytes.subrange(20 + length, 24 + length) =~= spec_u32_to_le_bytes(
        low_32_bits(message.payload.len()),
    ));
    assert(bytes.subrange(24 + length, 24 + length + message.payload.len()) =~= message.payload);
}

/// Decoding undoes encoding: a batch of canonical messages is read back
/// from its bytes.
pub proof fn lemma_read_messages(messages: Seq<MessageValue>)
    requires
        all_canonical(messages),
    ensures
        read_messages(messages_bytes(messages)) == Some(messages),
    decreases messages.len(),
{
    if messages.len() > 0 {
        let first = messages[0];
        let rest = messages.skip(1);
        assert(first.is_canonical());
        assert forall|i: int| 0 <= i < rest.len() implies (#[trigger] rest[i]).is_canonical() by {
            assert(rest[i] == messages[i + 1]);
        }
        lemma_read_messages(rest);
        lemma_read_message(first, messages_bytes(rest));
        let bytes = messages_bytes(messages);
        assert(bytes.skip(first.encoding().len() as int) =~= messages_bytes(rest));
        assert(seq![first] + rest =~= messages);
    }
}

/// A batch grows message by message: a batch with one more message at
/// its end is the old batch's bytes followed by that message's.
pub proof fn lemma_messages_bytes_push(messages: Seq<MessageValue>, message: MessageValue)
    ensures
        messages_bytes(messages.push(message)) == messages_bytes(messages) + message.encoding(),
    decreases messages.len(),
{
    let longer = messages.push(message);
    if messages.len() == 0 {
        assert(longer.skip(1) =~= messages);
        assert(longer[0] == message);
        assert(messages_bytes(messages) =~= Seq::<u8>::empty());
        assert(messages_bytes(longer) == message.encoding() + messages_bytes(longer.skip(1)));
        assert(messages_bytes(longer) =~= messages_bytes(messages) + message.encoding());
    } else {
        lemma_messages_bytes_push(messages.skip(1), message);
        assert(longer.skip(1) =~= messages.skip(1).push(message));
        assert(longer[0] == messages[0]);
        assert(messages_bytes(longer) =~= messages_bytes(messages) + message.encoding());
    }
}

/// Appends a message to `buffer`. Each length field keeps the low 32 bits
/// of the length it stands for.
pub fn write_message(message: &Message, buffer: &mut BytesMut)
    ensures
        written(*final(buffer)) == written(*old(buffer)) + message_value(*message).encoding(),
{
    buffer::put_u128_le(buffer, message.id);
    match &message.headers {
        Some(headers) => {
            let stored = encode_headers(headers);
            buffer::put_u32_le(buffer, (stored.len() as u64 % 0x1_0000_0000) as u32);
            buffer::put_slice(buffer, stored.as_slice());
        },
        None => {
            buffer::put_u32_le(buffer, 0);
        },
    }
    let payload = buffer::as_slice(&message.payload);
    buffer::put_u32_le(buffer, (payload.len() as u64 % 0x1_0000_0000) as u32);
    buffer::put_slice(buffer, payload);
    proof {
        assert(written(*buffer) =~= written(*old(buffer)) + message_value(*message).encoding());
    }
}

/// Reads the message at `position`. Returns it with the position behind
/// it.
pub fn parse_message_at(raw: &[u8], position: usize) -> (result: Option<(Message, usize)>)
    requires
        position <= raw@.len(),
    ensures
        match result {
            Some((message, next)) => read_message(raw@.skip(position as int)) == Some(
                (message_value(message), next - position),
            ) && position + 24 <= next <= raw@.len() && message.length == contents(
                message.payload,
            ).len(),
            None => read_message(raw@.skip(position as int)) is None,
        },
{
    let ghost rest = raw@.skip(position as int);
    let total = raw.len();
    if total - position < 20 {
        return None;
    }
    let id = u128_from_le_bytes(slice_subrange(raw, position, position + 16));
    let headers_length = u32_from_le_bytes(slice_subrange(raw, position + 16, position + 20));
    proof {
        assert(raw@.subrange(position as int, position + 16) =~= rest.subrange(0, 16));
        assert(raw@.subrange(position + 16, position + 20) =~= rest.subrange(16, 20));
    }
    let after_fixed: u64 = (total - position - 20) as u64;
    if after_fixed < headers_length as u64 + 4 {
        return None;
    }
    let headers_end: usize = position + 20 + headers_length as usize;
    let payload_length = u32_from_le_bytes(slice_subrange(raw, headers_end, headers_end + 4));
    proof {
        assert(raw@.subrange(headers_end as int, headers_end + 4) =~= rest.subrange(
            20 + headers_length,
            24 + headers_length,
        ));
    }
    let after_lengths: u64 = (total - headers_end - 4) as u64;
    if after_lengths < payload_length as u64 {
        return None;
    }
    let payload_end: usize = headers_end + 4 + payload_length as usize;
    proof {
        assert(raw@.subrange(position + 20, headers_end as int) =~= rest.subrange(
            20,
            20 + headers_length,
        ));
        assert(raw@.subrange(headers_end + 4, payload_end as int) =~= rest.subrange(
            24 + headers_length,
            24 + headers_length + payload_length,
        ));
    }
    let headers = if headers_length > 0 {
        match decode_headers(slice_subrange(raw, position + 20, headers_end)) {
            Ok(headers) => Some(headers),
            Err(_) => {
                return None;
            },
        }
    } else {
        None
    };
    let payload = buffer::from_vec(slice_to_vec(slice_subrange(raw, headers_end + 4, payload_end)));
    Some((Message { id, length: payload_length, payload, headers }, payload_end))
}

} // verus!

verus! {

/// What a send command holds.
pub ghost struct SendValue {
    pub stream: IdentifierValue,
    pub topic: IdentifierValue,
    pub partitioning: PartitioningValue,
    pub messages: Seq<MessageValue>,
}

impl View for SendMessages {
    type V = SendValue;

    open spec fn view(&self) -> SendValue {
        SendValue {
            stream: self.stream_id@,
            topic: self.topic_id@,
            partitioning: self.partitioning@,
            messages: message_values(self.messages@),
        }
    }
}

/// A send command on the wire.
pub open spec fn send_bytes(command: SendValue) -> Seq<u8> {
    identifier_bytes(command.stream) + identifier_bytes(command.topic) + partitioning_bytes(
        command.partitioning,
    ) + messages_bytes(command.messages)
}

/// The send command that `bytes` hold, from the first byte to the last,
/// or why they hold none.
pub open spec fn decode_send(bytes: Seq<u8>) -> Result<SendValue, IggyError> {
    match read_identifier(bytes) {
        None => Err(IggyError::InvalidIdentifier),
        Some((stream, first)) => match read_identifier(bytes.skip(first)) {
            None => Err(IggyError::InvalidIdentifier),
            Some((topic, second)) => match read_partitioning(bytes.skip(first + second)) {
                None => Err(IggyError::InvalidPartitioning),
                Some((partitioning, third)) => match read_messages(
                    bytes.skip(first + second + third),
                ) {
                    None => Err(IggyError::InvalidNumberEncoding),
                    Some(messages) => Ok(SendValue { stream, topic, partitioning, messages }),
                },
            },
        },
    }
}

/// Decoding undoes encoding: a send command with valid identifiers, a
/// valid partitioning and canonical messages is read back from its bytes.
pub proof fn lemma_send_round_trip(command: SendValue)
    requires
        command.stream.is_valid(),
        command.topic.is_valid(),
        command.partitioning.is_valid(),
        all_canonical(command.messages),
    ensures
        decode_send(send_bytes(command)) == Ok::<SendValue, IggyError>(command),
{
    let stream = identifier_bytes(command.stream);
    let topic = identifier_bytes(command.topic);
    let partitioning = partitioning_bytes(command.partitioning);
    let messages = messages_bytes(command.messages);
    let bytes = send_bytes(command);
    assert(bytes =~= stream + (topic + (partitioning + messages)));
    lemma_read_identifier(command.stream, topic + (partitioning + messages));
    assert(bytes.skip(stream.len() as int) =~= topic + (partitioning + messages));
    lemma_read_identifier(command.topic, partitioning + messages);
    assert(bytes.skip((stream.len() + topic.len()) as int) =~= partitioning + messages);
    lemma_read_partitioning(command.partitioning, messages);
    assert(bytes.skip((stream.len() + topic.len() + partitioning.len()) as int) =~= messages);
    lemma_read_messages(command.messages);
}

/// What decoding `bytes` gives when `done` has been read from the front
/// and `rest` is still to be read.
spec fn joined(done: Seq<MessageValue>, rest: Seq<u8>) -> Option<Seq<MessageValue>> {
    match read_messages(rest) {
        Some(messages) => Some(done + messages),
        None => None,
    }
}

/// Reading one more message from the front does not change what the
/// whole decodes to.
proof fn lemma_joined_step(done: Seq<MessageValue>, rest: Seq<u8>)
    requires
        rest.len() > 0,
    ensures
        read_message(rest) is None ==> joined(done, rest) is None,
        read_message(rest) is Some ==> joined(done, rest) == joined(
            done.push(read_message(rest).unwrap().0),
            rest.skip(read_message(rest).unwrap().1),
        ),
{
    if read_message(rest) is Some {
        let (message, taken) = read_message(rest).unwrap();
        let tail = rest.skip(taken);
        if read_messages(tail) is Some {
            let messages = read_messages(tail).unwrap();
            assert(done + (seq![message] + messages) =~= done.push(message) + messages);
        }
    }
}

/// Reads messages from `position` to the end of `raw`.
pub fn parse_messages_at(raw: &[u8], position: usize) -> (result: Option<Vec<Message>>)
    requires
        position <= raw@.len(),
    ensures
        match result {
            Some(messages) => read_messages(raw@.skip(position as int)) == Some(
                message_values(messages@),
            ),
            None => read_messages(raw@.skip(position as int)) is None,
        },
{
    let ghost all = raw@.skip(position as int);
    let mut messages: Vec<Message> = Vec::new();
    let mut at: usize = position;
    proof {
        assert(message_values(messages@) =~= Seq::<MessageValue>::empty());
        if read_messages(all) is Some {
            assert(Seq::<MessageValue>::empty() + read_messages(all).unwrap() =~= read_messages(
                all,
            ).unwrap());
        }
    }
    while at < raw.len()
        invariant
            position <= at <= raw@.len(),
            all == raw@.skip(position as int),
            read_messages(all) == joined(message_values(messages@), raw@.skip(at as int)),
        decreases raw@.len() - at,
    {
        proof {
            lemma_joined_step(message_values(messages@), raw@.skip(at as int));
        }
        match parse_message_at(raw, at) {
            Some((message, next)) => {
                proof {
                    assert(raw@.skip(at as int).skip(next - at) =~= raw@.skip(next as int));
                    assert(message_values(messages@.push(message)) =~= message_values(
                        messages@,
                    ).push(message_value(message)));
                }
                messages.push(message);
                at = next;
            },
            None => {
                return None;
            },
        }
    }
    proof {
        assert(raw@.skip(at as int) =~= Seq::<u8>::empty());
        assert(message_values(messages@) + Seq::<MessageValue>::empty() =~= message_values(
            messages@,
        ));
    }
    Some(messages)
}

impl SendMessages {
    /// Appends the command to `buffer`.
    pub fn extend(&self, buffer: &mut BytesMut)
        ensures
            written(*final(buffer)) == written(*old(buffer)) + send_bytes(self@),
    {
        write_identifier(&self.stream_id, buffer);
        write_identifier(&self.topic_id, buffer);
        write_partitioning(&self.partitioning, buffer);
        let ghost head = written(*buffer);
        let ghost values = message_values(self.messages@);
        let mut index: usize = 0;
        proof {
            assert(head =~= written(*old(buffer)) + (identifier_bytes(self.stream_id@)
                + identifier_bytes(self.topic_id@) + partitioning_bytes(self.partitioning@)));
            assert(written(*buffer) =~= head + messages_bytes(values.take(0)));
        }
        while index < self.messages.len()
            invariant
                index <= self.messages@.len(),
                values == message_values(self.messages@),
                written(*buffer) == head + messages_bytes(values.take(index as int)),
            decreases self.messages@.len() - index,
        {
            proof {
                let before = values.take(index as int);
                assert(values.take(index + 1) =~= before.push(values[index as int]));
                lemma_messages_bytes_push(before, values[index as int]);
                assert(values[index as int] == message_value(self.messages@[index as int]));
            }
            write_message(&self.messages[index], buffer);
            proof {
                assert(written(*buffer) =~= head + messages_bytes(values.take(index + 1)));
            }
            index = index + 1;
        }
        proof {
            assert(values.take(index as int) =~= values);
            assert(written(*buffer) =~= written(*old(buffer)) + send_bytes(self@));
        }
    }

    /// Reads a command from its bytes.
    pub fn from_bytes(raw: &[u8]) -> (result: Result<SendMessages, IggyError>)
        ensures
            match result {
                Ok(command) => decode_send(raw@) == Ok::<SendValue, IggyError>(command@),
                Err(error) => decode_send(raw@) == Err::<SendValue, IggyError>(error),
            },
    {
        proof {
            assert(raw@.skip(0) =~= raw@);
        }
        let (stream_id, first) = match parse_identifier_at(raw, 0) {
            Ok(read) => read,
            Err(error) => {
                return Err(error);
            },
        };
        let (topic_id, second) = match parse_identifier_at(raw, first) {
            Ok(read) => read,
            Err(error) => {
                return Err(error);
            },
        };
        let (partitioning, third) = match parse_partitioning_at(raw, second) {
            Ok(read) => read,
            Err(error) => {
                return Err(error);
            },
        };
        match parse_messages_at(raw, third) {
            Some(messages) => Ok(SendMessages { stream_id, topic_id, partitioning, messages }),
            None => Err(IggyError::InvalidNumberEncoding),
        }
    }
}

} // verus!
