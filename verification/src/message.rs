//! Stored messages and their record format.
//!
//! A record is laid out, every integer little-endian, as
//!
//! ```text
//! length u32 | offset u64 | state u8 | timestamp u64 | id u128 |
//! checksum u32 | headers_length u32 | headers | payload
//! ```
//!
//! where `length` counts every byte after itself. There is no version byte:
//! the field order is the format.

use crate::buffer;
use crate::buffer::{contents, written};
use crate::error::IggyError;
use crate::checksum;
use crate::checksum::crc32;
use crate::headers::{decode_entries, decode_headers, encode_entries, encode_headers, entries_of};
use crate::headers::{Header, HeaderEntry};
use crate::sizeable::{IggyByteSize, RealSize, Sizeable};
use crate::state::{is_state_code, state_of_code, MessageState};
use bytes::{Bytes, BytesMut};
use vstd::bytes::{
    lemma_auto_spec_u128_to_from_le_bytes, lemma_auto_spec_u32_to_from_le_bytes,
    lemma_auto_spec_u64_to_from_le_bytes, spec_u128_from_le_bytes, spec_u128_to_le_bytes,
    spec_u32_from_le_bytes, spec_u32_to_le_bytes, spec_u64_from_le_bytes, spec_u64_to_le_bytes,
    u128_from_le_bytes, u32_from_le_bytes, u64_from_le_bytes,
};
use std::sync::Arc;
use vstd::layout::size_of;
use vstd::prelude::*;
use vstd::slice::slice_subrange;
use vstd::string::StringSliceAdditionalSpecFns;

verus! {

/// Bytes of a record between the length prefix and the headers.
pub const FIXED_PART: usize = 41;

/// A message as the partition keeps it: the producer's bytes together with
/// what the broker assigned on append.
#[derive(Debug)]
pub struct RetainedMessage {
    pub id: u128,
    pub offset: u64,
    pub timestamp: u64,
    pub checksum: u32,
    pub message_state: MessageState,
    pub headers: Option<Bytes>,
    pub payload: Bytes,
}

/// What a retained message holds, as plain values.
pub ghost struct MessageRecord {
    pub id: u128,
    pub offset: u64,
    pub timestamp: u64,
    pub checksum: u32,
    pub message_state: MessageState,
    pub headers: Option<Seq<u8>>,
    pub payload: Seq<u8>,
}

impl View for RetainedMessage {
    type V = MessageRecord;

    open spec fn view(&self) -> MessageRecord {
        MessageRecord {
            id: self.id,
            offset: self.offset,
            timestamp: self.timestamp,
            checksum: self.checksum,
            message_state: self.message_state,
            headers: match self.headers {
                Some(headers) => Some(contents(headers)),
                None => None,
            },
            payload: contents(self.payload),
        }
    }
}

impl MessageRecord {
    /// The header bytes as they are written: nothing when there are none.
    pub open spec fn header_bytes(self) -> Seq<u8> {
        match self.headers {
            Some(headers) => headers,
            None => Seq::empty(),
        }
    }

    /// Number of bytes of the record after its length prefix.
    pub open spec fn size(self) -> nat {
        41 + self.header_bytes().len() + self.payload.len()
    }

    /// The record after its length prefix.
    pub open spec fn body(self) -> Seq<u8> {
        spec_u64_to_le_bytes(self.offset) + seq![self.message_state.code()] + spec_u64_to_le_bytes(
            self.timestamp,
        ) + spec_u128_to_le_bytes(self.id) + spec_u32_to_le_bytes(self.checksum)
            + spec_u32_to_le_bytes(low_32_bits(self.header_bytes().len())) + self.header_bytes()
            + self.payload
    }

    /// The whole record: length prefix, then body.
    pub open spec fn encoding(self) -> Seq<u8> {
        spec_u32_to_le_bytes(low_32_bits(size_in_bytes(self.size()) as nat)) + self.body()
    }

    /// A record that reads back as itself: headers, when present, are not
    /// empty, and their length fits the 32-bit length field.
    pub open spec fn is_canonical(self) -> bool {
        match self.headers {
            Some(headers) => 0 < headers.len() <= u32::MAX,
            None => true,
        }
    }

    /// The record with headers of no bytes taken for no headers, which is
    /// how its bytes read.
    pub open spec fn normalized(self) -> MessageRecord {
        MessageRecord {
            id: self.id,
            offset: self.offset,
            timestamp: self.timestamp,
            checksum: self.checksum,
            message_state: self.message_state,
            headers: if self.header_bytes().len() == 0 {
                None
            } else {
                self.headers
            },
            payload: self.payload,
        }
    }
}

/// The low 32 bits of a length, which is what a 32-bit length field keeps.
pub open spec fn low_32_bits(length: nat) -> u32 {
    (length % 0x1_0000_0000) as u32
}

/// A size as a 64-bit byte count, which stops at the largest one.
pub open spec fn size_in_bytes(size: nat) -> u64 {
    if size > u64::MAX {
        u64::MAX
    } else {
        size as u64
    }
}

/// The record that a body holds, if it is well formed: at least the fixed
/// part, a valid state code, and headers that end inside the body. Whatever
/// follows the headers is payload.
pub open spec fn decode_body(body: Seq<u8>) -> Option<MessageRecord> {
    if body.len() < 41 {
        None
    } else if !is_state_code(body[8]) {
        None
    } else {
        let headers_length = spec_u32_from_le_bytes(body.subrange(37, 41)) as int;
        if 41 + headers_length > body.len() {
            None
        } else {
            Some(
                MessageRecord {
                    offset: spec_u64_from_le_bytes(body.subrange(0, 8)),
                    message_state: state_of_code(body[8]),
                    timestamp: spec_u64_from_le_bytes(body.subrange(9, 17)),
                    id: spec_u128_from_le_bytes(body.subrange(17, 33)),
                    checksum: spec_u32_from_le_bytes(body.subrange(33, 37)),
                    headers: if headers_length > 0 {
                        Some(body.subrange(41, 41 + headers_length))
                    } else {
                        None
                    },
                    payload: body.subrange(41 + headers_length, body.len() as int),
                },
            )
        }
    }
}

impl Sizeable for RetainedMessage {
    open spec fn size_bytes(&self) -> IggyByteSize {
        IggyByteSize(size_in_bytes(self@.size()))
    }

    /// The size of the message's record, its length prefix not counted.
    fn get_size_bytes(&self) -> (size: IggyByteSize) {
        let headers_length: usize = match &self.headers {
            Some(headers) => buffer::as_slice(headers).len(),
            None => 0,
        };
        let payload_length: usize = buffer::as_slice(&self.payload).len();
        let size: u128 = 41u128 + headers_length as u128 + payload_length as u128;
        if size > u64::MAX as u128 {
            IggyByteSize::from(u64::MAX)
        } else {
            IggyByteSize::from(size as u64)
        }
    }
}

impl RetainedMessage {
    /// Appends the message's record to `bytes`: its length, then its body.
    /// Each length field keeps the low 32 bits of the length it stands for.
    pub fn extend(&self, bytes: &mut BytesMut)
        ensures
            written(*final(bytes)) == written(*old(bytes)) + self@.encoding(),
    {
        let length = self.get_size_bytes();
        buffer::put_u32_le(bytes, (length.as_bytes_u64() % 0x1_0000_0000) as u32);
        buffer::put_u64_le(bytes, self.offset);
        buffer::put_u8(bytes, self.message_state.as_code());
        buffer::put_u64_le(bytes, self.timestamp);
        buffer::put_u128_le(bytes, self.id);
        buffer::put_u32_le(bytes, self.checksum);
        match &self.headers {
            Some(headers) => {
                let raw = buffer::as_slice(headers);
                buffer::put_u32_le(bytes, (raw.len() as u64 % 0x1_0000_0000) as u32);
                buffer::put_slice(bytes, raw);
            },
            None => {
                buffer::put_u32_le(bytes, 0u32);
            },
        }
        buffer::put_slice(bytes, buffer::as_slice(&self.payload));
    }

    /// Reads a message from the body of a record (the record without its
    /// length prefix). A body that is too short, carries an unknown state
    /// code or announces more header bytes than it holds is rejected.
    pub fn try_from_bytes(bytes: Bytes) -> (result: Result<RetainedMessage, IggyError>)
        ensures
            match result {
                Ok(message) => decode_body(contents(bytes)) == Some(message@),
                Err(error) => decode_body(contents(bytes)) is None && error
                    == IggyError::InvalidNumberEncoding,
            },
    {
        let raw = buffer::as_slice(&bytes);
        let total = raw.len();
        if total < FIXED_PART {
            return Err(IggyError::InvalidNumberEncoding);
        }
        let offset = u64_from_le_bytes(slice_subrange(raw, 0, 8));
        let message_state = match MessageState::from_code(raw[8]) {
            Ok(state) => state,
            Err(error) => {
                return Err(error);
            },
        };
        let timestamp = u64_from_le_bytes(slice_subrange(raw, 9, 17));
        let id = u128_from_le_bytes(slice_subrange(raw, 17, 33));
        let checksum = u32_from_le_bytes(slice_subrange(raw, 33, 37));
        let headers_length = u32_from_le_bytes(slice_subrange(raw, 37, 41));
        if headers_length as u64 > (total - FIXED_PART) as u64 {
            return Err(IggyError::InvalidNumberEncoding);
        }
        let position: usize = FIXED_PART + headers_length as usize;
        let headers = if headers_length > 0 {
            Some(buffer::slice(&bytes, FIXED_PART, position))
        } else {
            None
        };
        let payload = buffer::slice(&bytes, position, total);
        Ok(RetainedMessage { id, offset, timestamp, checksum, message_state, headers, payload })
    }
}

} // verus!

verus! {

/// The lengths of the fixed fields of a body, and where each one lies.
proof fn lemma_body_layout(record: MessageRecord)
    ensures
        record.body().len() == record.size(),
        record.body().subrange(0, 8) == spec_u64_to_le_bytes(record.offset),
        record.body()[8] == record.message_state.code(),
        record.body().subrange(9, 17) == spec_u64_to_le_bytes(record.timestamp),
        record.body().subrange(17, 33) == spec_u128_to_le_bytes(record.id),
        record.body().subrange(33, 37) == spec_u32_to_le_bytes(record.checksum),
        record.body().subrange(37, 41) == spec_u32_to_le_bytes(
            low_32_bits(record.header_bytes().len()),
        ),
        record.body().subrange(41, 41 + record.header_bytes().len() as int) == record.header_bytes(),
        record.body().subrange(41 + record.header_bytes().len() as int, record.size() as int)
            == record.payload,
{
    lemma_auto_spec_u64_to_from_le_bytes();
    lemma_auto_spec_u128_to_from_le_bytes();
    lemma_auto_spec_u32_to_from_le_bytes();
    let body = record.body();
    assert(body.len() == record.size());
    assert(body.subrange(0, 8) =~= spec_u64_to_le_bytes(record.offset));
    assert(body.subrange(9, 17) =~= spec_u64_to_le_bytes(record.timestamp));
    assert(body.subrange(17, 33) =~= spec_u128_to_le_bytes(record.id));
    assert(body.subrange(33, 37) =~= spec_u32_to_le_bytes(record.checksum));
    assert(body.subrange(37, 41) =~= spec_u32_to_le_bytes(
        low_32_bits(record.header_bytes().len()),
    ));
    assert(body.subrange(41, 41 + record.header_bytes().len() as int) =~= record.header_bytes());
    assert(body.subrange(41 + record.header_bytes().len() as int, record.size() as int)
        =~= record.payload);
}

/// Decoding undoes encoding: the body of a canonical record reads back as
/// that record, whatever its fields hold.
pub proof fn lemma_decode_encoded_body(record: MessageRecord)
    requires
        record.is_canonical(),
    ensures
        decode_body(record.body()) == Some(record),
{
    lemma_auto_spec_u64_to_from_le_bytes();
    lemma_auto_spec_u128_to_from_le_bytes();
    lemma_auto_spec_u32_to_from_le_bytes();
    lemma_body_layout(record);
    let body = record.body();
    let headers_length = record.header_bytes().len();
    assert(low_32_bits(headers_length) == headers_length);
    let decoded = decode_body(body).unwrap();
    assert(decoded.headers == record.headers);
    assert(decoded.payload == record.payload);
}

/// Bytes survive: the body of any record whose headers fit their length
/// field reads back as the same record, but for headers of no bytes, which
/// read back as no headers; and what is read back has the same bytes.
pub proof fn lemma_decode_any_body(record: MessageRecord)
    requires
        record.header_bytes().len() <= u32::MAX,
    ensures
        record.normalized().is_canonical(),
        record.normalized().body() == record.body(),
        record.normalized().encoding() == record.encoding(),
        decode_body(record.body()) == Some(record.normalized()),
{
    assert(record.normalized().header_bytes() =~= record.header_bytes());
    lemma_decode_encoded_body(record.normalized());
}

/// Encoding undoes decoding: a well-formed body is the body of the record
/// it holds, and that record is canonical. So no two bodies hold the same
/// record.
pub proof fn lemma_encode_decoded_body(body: Seq<u8>)
    requires
        decode_body(body) is Some,
    ensures
        decode_body(body).unwrap().is_canonical(),
        decode_body(body).unwrap().body() == body,
{
    lemma_auto_spec_u64_to_from_le_bytes();
    lemma_auto_spec_u128_to_from_le_bytes();
    lemma_auto_spec_u32_to_from_le_bytes();
    let record = decode_body(body).unwrap();
    let headers_length = spec_u32_from_le_bytes(body.subrange(37, 41));
    assert(record.header_bytes().len() == headers_length);
    assert(low_32_bits(record.header_bytes().len()) == headers_length);
    assert(spec_u64_to_le_bytes(record.offset) == body.subrange(0, 8));
    assert(spec_u64_to_le_bytes(record.timestamp) == body.subrange(9, 17));
    assert(spec_u128_to_le_bytes(record.id) == body.subrange(17, 33));
    assert(spec_u32_to_le_bytes(record.checksum) == body.subrange(33, 37));
    assert(spec_u32_to_le_bytes(headers_length) == body.subrange(37, 41));
    assert(record.body() =~= body);
}

/// The length prefix of a record counts the bytes of its body, as long as
/// that count fits in 32 bits, and the body follows the prefix.
pub proof fn lemma_length_prefix(record: MessageRecord)
    ensures
        record.encoding().len() == 4 + record.size(),
        record.encoding().subrange(4, 4 + record.size() as int) == record.body(),
        record.size() <= u32::MAX ==> spec_u32_from_le_bytes(record.encoding().subrange(0, 4))
            == record.size(),
{
    lemma_auto_spec_u32_to_from_le_bytes();
    lemma_body_layout(record);
    let prefix = spec_u32_to_le_bytes(low_32_bits(size_in_bytes(record.size()) as nat));
    assert(record.encoding().subrange(0, 4) =~= prefix);
    assert(record.encoding().subrange(4, 4 + record.size() as int) =~= record.body());
}

} // verus!

verus! {

/// A message as a producer sends it.
#[derive(Debug)]
pub struct Message {
    pub id: u128,
    pub length: u32,
    pub payload: Bytes,
    pub headers: Option<Vec<Header>>,
}

/// A message as a consumer receives it.
#[derive(Debug)]
pub struct PolledMessage {
    pub offset: u64,
    pub state: MessageState,
    pub timestamp: u64,
    pub id: u128,
    pub checksum: u32,
    pub headers: Option<Vec<Header>>,
    pub length: IggyByteSize,
    pub payload: Bytes,
}

/// What a polled message holds, as plain values.
pub ghost struct PolledRecord {
    pub offset: u64,
    pub state: MessageState,
    pub timestamp: u64,
    pub id: u128,
    pub checksum: u32,
    pub headers: Option<Seq<HeaderEntry>>,
    pub length: u64,
    pub payload: Seq<u8>,
}

impl View for PolledMessage {
    type V = PolledRecord;

    open spec fn view(&self) -> PolledRecord {
        PolledRecord {
            offset: self.offset,
            state: self.state,
            timestamp: self.timestamp,
            id: self.id,
            checksum: self.checksum,
            headers: match self.headers {
                Some(headers) => Some(entries_of(headers@)),
                None => None,
            },
            length: self.length.0,
            payload: contents(self.payload),
        }
    }
}

/// The messages of one poll, with the partition they came from and the
/// partition's current offset. The messages are shared with the cache.
#[derive(Debug)]
pub struct PolledMessages {
    pub partition_id: u32,
    pub current_offset: u64,
    pub messages: Vec<Arc<PolledMessage>>,
}

impl Message {
    /// A message to send. Without an id the broker assigns one; the length
    /// is that of the payload, as far as 32 bits hold it.
    pub fn new(id: Option<u128>, payload: Bytes, headers: Option<Vec<Header>>) -> (message: Message)
        ensures
            message.id == match id {
                Some(id) => id,
                None => 0,
            },
            message.length == low_32_bits(contents(payload).len()),
            message.payload == payload,
            message.headers == headers,
    {
        let length = buffer::as_slice(&payload).len();
        Message {
            id: match id {
                Some(id) => id,
                None => 0,
            },
            length: (length as u64 % 0x1_0000_0000) as u32,
            payload,
            headers,
        }
    }

    /// A message without id or headers whose payload is the bytes of
    /// `text`.
    pub fn from_text(text: &str) -> (message: Message)
        ensures
            message.id == 0,
            message.length == low_32_bits(text.spec_bytes().len()),
            contents(message.payload) == text.spec_bytes(),
            message.headers is None,
    {
        let payload = buffer::from_vec(vstd::slice::slice_to_vec(text.as_bytes()));
        Message::new(None, payload, None)
    }
}

impl MessageRecord {
    /// The record as it is handed to a consumer, given what its header
    /// bytes decode to.
    pub open spec fn polled(self, headers: Option<Seq<HeaderEntry>>) -> PolledRecord {
        PolledRecord {
            offset: self.offset,
            state: self.message_state,
            timestamp: self.timestamp,
            id: self.id,
            checksum: self.checksum,
            headers,
            length: size_in_bytes(self.payload.len()),
            payload: self.payload,
        }
    }

    /// The record as it is handed to a consumer; none when its header
    /// bytes are not well-formed.
    pub open spec fn delivered(self) -> Option<PolledRecord> {
        match self.headers {
            Some(stored) => match decode_entries(stored) {
                Some(entries) => Some(self.polled(Some(entries))),
                None => None,
            },
            None => Some(self.polled(None)),
        }
    }

    /// The bytes that a retained message occupies in memory.
    pub open spec fn footprint(self) -> nat {
        16 + 8 + 8 + 4 + size_of::<MessageState>() + size_of::<Option<Bytes>>() + (
        match self.headers {
            Some(headers) => headers.len() + 2 * size_of::<Bytes>(),
            None => 0,
        }) + self.payload.len() + 2 * size_of::<Bytes>()
    }
}

/// What is retained of a producer's message that gets `offset` and
/// `timestamp`: the message is available, its checksum is that of its
/// payload, and its headers are kept in wire format.
pub open spec fn retained_record(message: Message, offset: u64, timestamp: u64) -> MessageRecord {
    MessageRecord {
        id: message.id,
        offset,
        timestamp,
        checksum: crc32(contents(message.payload)),
        message_state: MessageState::Available,
        headers: match message.headers {
            Some(headers) => Some(encode_entries(entries_of(headers@))),
            None => None,
        },
        payload: contents(message.payload),
    }
}

impl RetainedMessage {
    /// Another handle on the same message: the fields are copied, the
    /// bytes are shared.
    pub fn share(&self) -> (copy: RetainedMessage)
        ensures
            copy@ == self@,
    {
        RetainedMessage {
            id: self.id,
            offset: self.offset,
            timestamp: self.timestamp,
            checksum: self.checksum,
            message_state: self.message_state,
            headers: match &self.headers {
                Some(headers) => Some(buffer::share(headers)),
                None => None,
            },
            payload: buffer::share(&self.payload),
        }
    }

    /// The message as a consumer receives it: the same fields, the headers
    /// decoded, the length that of the payload. Fails when the stored header
    /// bytes are not well-formed.
    pub fn to_polled_message(&self) -> (result: Result<PolledMessage, IggyError>)
        ensures
            match result {
                Ok(polled) => self@.delivered() == Some(polled@),
                Err(error) => self@.delivered() is None && error
                    == IggyError::InvalidNumberEncoding,
            },
    {
        let headers = match &self.headers {
            Some(stored) => match decode_headers(buffer::as_slice(stored)) {
                Ok(headers) => Some(headers),
                Err(error) => {
                    return Err(error);
                },
            },
            None => None,
        };
        let length = buffer::as_slice(&self.payload).len();
        Ok(
            PolledMessage {
                offset: self.offset,
                state: self.message_state,
                timestamp: self.timestamp,
                id: self.id,
                checksum: self.checksum,
                headers,
                length: IggyByteSize::from(length as u64),
                payload: buffer::share(&self.payload),
            },
        )
    }

    /// Retains a producer's message at `offset`, received at `timestamp`:
    /// available, with the checksum of its payload and its headers encoded.
    pub fn new(offset: u64, timestamp: u64, message: Message) -> (retained: RetainedMessage)
        ensures
            retained@ == retained_record(message, offset, timestamp),
    {
        let checksum = checksum::calculate(buffer::as_slice(&message.payload));
        let headers = match &message.headers {
            Some(headers) => Some(buffer::from_vec(encode_headers(headers))),
            None => None,
        };
        RetainedMessage {
            offset,
            timestamp,
            checksum,
            message_state: MessageState::Available,
            id: message.id,
            payload: message.payload,
            headers,
        }
    }
}

impl RealSize for RetainedMessage {
    open spec fn footprint(&self) -> IggyByteSize {
        IggyByteSize(size_in_bytes(self@.footprint()))
    }

    fn real_size(&self) -> (size: IggyByteSize) {
        let total = self.exact_footprint();
        if total > u64::MAX as u128 {
            IggyByteSize::from(u64::MAX)
        } else {
            IggyByteSize::from(total as u64)
        }
    }
}

impl RetainedMessage {
    fn exact_footprint(&self) -> (total: u128)
        ensures
            total == self@.footprint(),
            total < 0x1_0000_0000_0000_0000_0000,
    {
        let bytes_overhead: u128 = std::mem::size_of::<Bytes>() as u128 * 2;
        let mut total: u128 = 16 + 8 + 8 + 4;
        total = total + std::mem::size_of::<MessageState>() as u128;
        total = total + std::mem::size_of::<Option<Bytes>>() as u128;
        match &self.headers {
            Some(headers) => {
                total = total + buffer::as_slice(headers).len() as u128;
                total = total + bytes_overhead;
            },
            None => {},
        }
        total = total + buffer::as_slice(&self.payload).len() as u128;
        total = total + bytes_overhead;
        total
    }
}

impl RealSize for Arc<RetainedMessage> {
    /// The message's footprint and the two counters of the shared handle.
    open spec fn footprint(&self) -> IggyByteSize {
        IggyByteSize(size_in_bytes((**self)@.footprint() + 2 * size_of::<usize>()))
    }

    fn real_size(&self) -> (size: IggyByteSize) {
        let message: &RetainedMessage = &**self;
        let inner: u128 = message.exact_footprint();
        let total: u128 = inner + std::mem::size_of::<usize>() as u128 * 2;
        if total > u64::MAX as u128 {
            IggyByteSize::from(u64::MAX)
        } else {
            IggyByteSize::from(total as u64)
        }
    }
}

} // verus!

verus! {

/// Whether every record can be handed to a consumer.
pub open spec fn all_deliverable(records: Seq<MessageRecord>) -> bool {
    forall|i: int| 0 <= i < records.len() ==> (#[trigger] records[i]).delivered() is Some
}

/// Whether `polled` are `records` as they are handed to a consumer, one
/// for one and in order.
pub open spec fn delivers(records: Seq<MessageRecord>, polled: Seq<Arc<PolledMessage>>) -> bool {
    &&& polled.len() == records.len()
    &&& forall|i: int|
        0 <= i < records.len() ==> (#[trigger] records[i]).delivered() == Some((*polled[i])@)
}

/// Converts retained messages for delivery. Stored bytes that cannot be
/// read fail the whole batch.
pub fn to_polled_messages(messages: &Vec<RetainedMessage>) -> (result: Result<
    Vec<Arc<PolledMessage>>,
    IggyError,
>)
    ensures
        match result {
            Ok(polled) => delivers(
                messages@.map_values(|message: RetainedMessage| message@),
                polled@,
            ),
            Err(error) => !all_deliverable(
                messages@.map_values(|message: RetainedMessage| message@),
            ) && error == IggyError::CannotReadMessage,
        },
{
    let ghost records = messages@.map_values(|message: RetainedMessage| message@);
    let mut polled: Vec<Arc<PolledMessage>> = Vec::new();
    let mut index: usize = 0;
    while index < messages.len()
        invariant
            index <= messages.len(),
            records == messages@.map_values(|message: RetainedMessage| message@),
            polled@.len() == index,
            forall|i: int|
                0 <= i < index ==> (#[trigger] records[i]).delivered() == Some((*polled@[i])@),
        decreases messages.len() - index,
    {
        assert(records[index as int] == messages@[index as int]@);
        match messages[index].to_polled_message() {
            Ok(message) => {
                polled.push(Arc::new(message));
            },
            Err(_) => {
                return Err(IggyError::CannotReadMessage);
            },
        }
        index = index + 1;
    }
    Ok(polled)
}

} // verus!
