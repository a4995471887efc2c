use bytes::{Bytes, BytesMut};
use iggy_engine::checksum::calculate;
use iggy_engine::error::IggyError;
use iggy_engine::headers::{encode_headers, Header, HeaderKind};
use iggy_engine::message::{to_polled_messages, Message, RetainedMessage};
use iggy_engine::sizeable::{IggyByteSize, RealSize, Sizeable};
use iggy_engine::state::MessageState;
use std::sync::Arc;

fn sample(headers: Option<Bytes>, payload: &'static [u8]) -> RetainedMessage {
    RetainedMessage {
        id: 0x0102_0304_0506_0708_090a_0b0c_0d0e_0f10,
        offset: 7,
        timestamp: 1_700_000_000_000_000,
        checksum: calculate(payload),
        message_state: MessageState::Available,
        headers,
        payload: Bytes::from_static(payload),
    }
}

fn body_of(message: &RetainedMessage) -> Bytes {
    let mut buffer = BytesMut::new();
    message.extend(&mut buffer);
    buffer.freeze().slice(4..)
}

#[test]
fn checksum_of_check_string() {
    assert_eq!(calculate(b"123456789"), 0xCBF4_3926);
    assert_eq!(calculate(b""), 0);
    assert_eq!(calculate(b"a"), 0xE8B7_BE43);
    assert_eq!(calculate(b"The quick brown fox jumps over the lazy dog"), 0x414F_A339);
}

#[test]
fn record_bytes_are_laid_out_in_field_order() {
    let message = sample(None, b"hi");
    let mut buffer = BytesMut::new();
    message.extend(&mut buffer);
    let mut expected: Vec<u8> = Vec::new();
    expected.extend_from_slice(&43u32.to_le_bytes());
    expected.extend_from_slice(&7u64.to_le_bytes());
    expected.push(1);
    expected.extend_from_slice(&1_700_000_000_000_000u64.to_le_bytes());
    expected.extend_from_slice(&0x0102_0304_0506_0708_090a_0b0c_0d0e_0f10u128.to_le_bytes());
    expected.extend_from_slice(&calculate(b"hi").to_le_bytes());
    expected.extend_from_slice(&0u32.to_le_bytes());
    expected.extend_from_slice(b"hi");
    assert_eq!(&buffer[..], &expected[..]);
}

#[test]
fn record_with_headers_is_laid_out_in_field_order() {
    let message = sample(Some(Bytes::from_static(b"\x01k\x01\x01\x00\x00\x00v")), b"p");
    let mut buffer = BytesMut::new();
    buffer.extend_from_slice(b"before");
    message.extend(&mut buffer);
    let mut expected: Vec<u8> = b"before".to_vec();
    expected.extend_from_slice(&50u32.to_le_bytes());
    expected.extend_from_slice(&7u64.to_le_bytes());
    expected.push(1);
    expected.extend_from_slice(&1_700_000_000_000_000u64.to_le_bytes());
    expected.extend_from_slice(&0x0102_0304_0506_0708_090a_0b0c_0d0e_0f10u128.to_le_bytes());
    expected.extend_from_slice(&calculate(b"p").to_le_bytes());
    expected.extend_from_slice(&8u32.to_le_bytes());
    expected.extend_from_slice(b"\x01k\x01\x01\x00\x00\x00v");
    expected.extend_from_slice(b"p");
    assert_eq!(&buffer[..], &expected[..]);
}

#[test]
fn record_round_trip_without_headers() {
    let message = sample(None, b"payload bytes");
    let read = RetainedMessage::try_from_bytes(body_of(&message)).unwrap();
    assert_eq!(read.id, message.id);
    assert_eq!(read.offset, 7);
    assert_eq!(read.timestamp, 1_700_000_000_000_000);
    assert_eq!(read.checksum, message.checksum);
    assert_eq!(read.message_state, MessageState::Available);
    assert!(read.headers.is_none());
    assert_eq!(&read.payload[..], b"payload bytes");
}

#[test]
fn record_round_trip_with_headers() {
    let mut message = sample(Some(Bytes::from_static(b"\x01k\x01\x01\x00\x00\x00v")), b"xyz");
    message.message_state = MessageState::Poisoned;
    let read = RetainedMessage::try_from_bytes(body_of(&message)).unwrap();
    assert_eq!(read.id, message.id);
    assert_eq!(read.offset, message.offset);
    assert_eq!(read.timestamp, message.timestamp);
    assert_eq!(read.checksum, message.checksum);
    assert_eq!(read.message_state, MessageState::Poisoned);
    assert_eq!(&read.headers.unwrap()[..], b"\x01k\x01\x01\x00\x00\x00v");
    assert_eq!(&read.payload[..], b"xyz");
}

#[test]
fn record_round_trip_with_empty_payload() {
    let message = sample(None, b"");
    let body = body_of(&message);
    assert_eq!(body.len(), 41);
    let read = RetainedMessage::try_from_bytes(body).unwrap();
    assert_eq!(read.payload.len(), 0);
    assert_eq!(read.offset, 7);
}

#[test]
fn empty_headers_read_back_as_none() {
    let message = sample(Some(Bytes::new()), b"p");
    let read = RetainedMessage::try_from_bytes(body_of(&message)).unwrap();
    assert!(read.headers.is_none());
    assert_eq!(&read.payload[..], b"p");
}

#[test]
fn bytes_round_trip_through_a_message() {
    let message = sample(Some(Bytes::from_static(b"\x02ab\x03\x00\x00\x00\x00")), b"body");
    let body = body_of(&message);
    let read = RetainedMessage::try_from_bytes(body.clone()).unwrap();
    assert_eq!(body_of(&read), body);
}

#[test]
fn short_body_is_rejected() {
    let result = RetainedMessage::try_from_bytes(Bytes::from(vec![1u8; 40]));
    assert_eq!(result.unwrap_err(), IggyError::InvalidNumberEncoding);
    let result = RetainedMessage::try_from_bytes(Bytes::new());
    assert_eq!(result.unwrap_err(), IggyError::InvalidNumberEncoding);
}

#[test]
fn unknown_state_code_is_rejected() {
    let mut body = body_of(&sample(None, b"p")).to_vec();
    body[8] = 2;
    let result = RetainedMessage::try_from_bytes(Bytes::from(body));
    assert_eq!(result.unwrap_err(), IggyError::InvalidNumberEncoding);
}

#[test]
fn headers_that_run_past_the_body_are_rejected() {
    let mut body = body_of(&sample(None, b"p")).to_vec();
    body[37] = 2;
    let result = RetainedMessage::try_from_bytes(Bytes::from(body.clone()));
    assert_eq!(result.unwrap_err(), IggyError::InvalidNumberEncoding);
    body[37] = 1;
    let read = RetainedMessage::try_from_bytes(Bytes::from(body)).unwrap();
    assert_eq!(&read.headers.unwrap()[..], b"p");
    assert_eq!(read.payload.len(), 0);
}

#[test]
fn state_codes() {
    assert_eq!(MessageState::Available.as_code(), 1);
    assert_eq!(MessageState::Unavailable.as_code(), 10);
    assert_eq!(MessageState::Poisoned.as_code(), 20);
    assert_eq!(MessageState::MarkedForDeletion.as_code(), 30);
    assert_eq!(MessageState::from_code(1).unwrap(), MessageState::Available);
    assert_eq!(MessageState::from_code(10).unwrap(), MessageState::Unavailable);
    assert_eq!(MessageState::from_code(20).unwrap(), MessageState::Poisoned);
    assert_eq!(MessageState::from_code(30).unwrap(), MessageState::MarkedForDeletion);
    assert_eq!(MessageState::from_code(0).unwrap_err(), IggyError::InvalidNumberEncoding);
    assert_eq!(MessageState::from_code(11).unwrap_err(), IggyError::InvalidNumberEncoding);
}

#[test]
fn new_message_is_available_and_checksummed() {
    let message = Message { id: 9, length: 3, payload: Bytes::from_static(b"abc"), headers: None };
    let retained = RetainedMessage::new(4, 99, message);
    assert_eq!(retained.id, 9);
    assert_eq!(retained.offset, 4);
    assert_eq!(retained.timestamp, 99);
    assert_eq!(retained.checksum, 0x3524_41C2);
    assert_eq!(retained.message_state, MessageState::Available);
    assert!(retained.headers.is_none());
    assert_eq!(&retained.payload[..], b"abc");
}

#[test]
fn new_message_keeps_its_headers_in_wire_format() {
    let headers = vec![
        Header::new(b"a".to_vec(), HeaderKind::Bool, vec![1]).unwrap(),
        Header::new(b"bc".to_vec(), HeaderKind::String, b"xy".to_vec()).unwrap(),
    ];
    let expected = encode_headers(&headers);
    let message = Message::new(Some(5), Bytes::from_static(b"p"), Some(headers));
    assert_eq!(message.id, 5);
    assert_eq!(message.length, 1);
    let retained = RetainedMessage::new(0, 1, message);
    assert_eq!(
        &retained.headers.as_ref().unwrap()[..],
        b"\x01a\x03\x01\x00\x00\x00\x01\x02bc\x02\x02\x00\x00\x00xy"
    );
    assert_eq!(&retained.headers.as_ref().unwrap()[..], &expected[..]);
    assert_eq!(retained.get_size_bytes(), IggyByteSize(41 + 18 + 1));
}

#[test]
fn message_from_text() {
    let message = Message::from_text("héllo");
    assert_eq!(message.id, 0);
    assert_eq!(message.length, 6);
    assert_eq!(&message.payload[..], "héllo".as_bytes());
    assert!(message.headers.is_none());
    let message = Message::new(None, Bytes::new(), None);
    assert_eq!(message.id, 0);
    assert_eq!(message.length, 0);
}

#[test]
fn polled_message_has_the_fields_of_the_retained_one() {
    let headers = vec![Header::new(b"k".to_vec(), HeaderKind::Uint8, vec![7]).unwrap()];
    let retained =
        RetainedMessage::new(12, 34, Message::new(Some(56), Bytes::from_static(b"data"), Some(headers)));
    let polled = retained.to_polled_message().unwrap();
    assert_eq!(polled.offset, 12);
    assert_eq!(polled.timestamp, 34);
    assert_eq!(polled.id, 56);
    assert_eq!(polled.state, MessageState::Available);
    assert_eq!(polled.checksum, calculate(b"data"));
    assert_eq!(polled.length, IggyByteSize(4));
    assert_eq!(&polled.payload[..], b"data");
    let headers = polled.headers.unwrap();
    assert_eq!(headers.len(), 1);
    assert_eq!(headers[0].name().as_slice(), b"k");
    assert_eq!(headers[0].kind(), HeaderKind::Uint8);
    assert_eq!(headers[0].value().as_slice(), &[7]);
}

#[test]
fn polled_message_without_headers() {
    let polled = sample(None, b"abc").to_polled_message().unwrap();
    assert!(polled.headers.is_none());
    assert_eq!(polled.length.as_bytes_u64(), 3);
    assert_eq!(polled.offset, 7);
}

#[test]
fn unreadable_headers_fail_the_conversion() {
    let broken = sample(Some(Bytes::from_static(b"\x00")), b"abc");
    assert_eq!(broken.to_polled_message().unwrap_err(), IggyError::InvalidNumberEncoding);
    let batch = vec![sample(None, b"ok"), broken];
    assert_eq!(to_polled_messages(&batch).unwrap_err(), IggyError::CannotReadMessage);
    let batch = vec![sample(None, b"ok"), sample(None, b"fine")];
    let polled = to_polled_messages(&batch).unwrap();
    assert_eq!(polled.len(), 2);
    assert_eq!(&polled[0].payload[..], b"ok");
    assert_eq!(&polled[1].payload[..], b"fine");
}

#[test]
fn shared_copy_holds_the_same_message() {
    let message = sample(Some(Bytes::from_static(b"\x01k\x01\x00\x00\x00\x00")), b"abc");
    let copy = message.share();
    assert_eq!(copy.id, message.id);
    assert_eq!(copy.offset, message.offset);
    assert_eq!(copy.timestamp, message.timestamp);
    assert_eq!(copy.checksum, message.checksum);
    assert_eq!(copy.message_state, message.message_state);
    assert_eq!(copy.headers, message.headers);
    assert_eq!(copy.payload, message.payload);
}

#[test]
fn encoded_size_counts_every_byte_after_the_prefix() {
    assert_eq!(sample(None, b"").get_size_bytes(), IggyByteSize(41));
    assert_eq!(sample(None, b"12345").get_size_bytes(), IggyByteSize(46));
    assert_eq!(sample(Some(Bytes::from_static(b"123")), b"12345").get_size_bytes(), IggyByteSize(49));
    let message = sample(Some(Bytes::from_static(b"123")), b"12345");
    assert_eq!(body_of(&message).len() as u64, message.get_size_bytes().as_bytes_u64());
}

#[test]
fn real_size_counts_fields_bytes_and_handles() {
    let handle = std::mem::size_of::<Bytes>() as u64;
    let fixed = 16 + 8 + 8 + 4
        + std::mem::size_of::<MessageState>() as u64
        + std::mem::size_of::<Option<Bytes>>() as u64;
    assert_eq!(sample(None, b"12345").real_size(), IggyByteSize(fixed + 5 + 2 * handle));
    let with_headers = sample(Some(Bytes::from_static(b"123")), b"12345");
    assert_eq!(with_headers.real_size(), IggyByteSize(fixed + 3 + 2 * handle + 5 + 2 * handle));
    let shared = Arc::new(with_headers);
    assert_eq!(
        shared.real_size(),
        IggyByteSize(fixed + 3 + 2 * handle + 5 + 2 * handle + 2 * std::mem::size_of::<usize>() as u64)
    );
    assert_eq!(IggyByteSize::from(12u64), IggyByteSize(12));
}
