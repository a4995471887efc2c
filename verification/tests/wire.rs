use bytes::{Bytes, BytesMut};
use iggy_engine::commands::{Consumer, FlushUnsavedBuffer, PollMessages, PollingStrategy, SendMessages};
use iggy_engine::error::IggyError;
use iggy_engine::headers::{Header, HeaderKind};
use iggy_engine::identifier::Identifier;
use iggy_engine::message::Message;
use iggy_engine::partitioning::{Partitioning, PartitioningKind};
use iggy_engine::wire::{
    parse_consumer_at, parse_identifier_at, parse_message_at, parse_messages_at,
    parse_partitioning_at, parse_strategy_at, write_consumer, write_identifier, write_message,
    write_partitioning, write_strategy,
};

fn bytes_of(write: impl FnOnce(&mut BytesMut)) -> Vec<u8> {
    let mut buffer = BytesMut::new();
    write(&mut buffer);
    buffer.to_vec()
}

#[test]
fn identifiers_on_the_wire() {
    let numeric = Identifier::numeric(0x0102_0304).unwrap();
    let bytes = bytes_of(|buffer| write_identifier(&numeric, buffer));
    assert_eq!(bytes, vec![1, 4, 4, 3, 2, 1]);
    let (read, next) = parse_identifier_at(&bytes, 0).unwrap();
    assert_eq!((read.get_u32_value(), next), (Some(0x0102_0304), 6));
    let named = Identifier::named("orders").unwrap();
    let mut bytes = vec![9, 9];
    bytes.extend(bytes_of(|buffer| write_identifier(&named, buffer)));
    bytes.push(7);
    assert_eq!(bytes, vec![9, 9, 2, 6, b'o', b'r', b'd', b'e', b'r', b's', 7]);
    let (read, next) = parse_identifier_at(&bytes, 2).unwrap();
    assert_eq!(read.get_name().unwrap().as_slice(), b"orders");
    assert_eq!(next, 10);
    for broken in [
        vec![],
        vec![1],
        vec![1, 4, 1, 0, 0],
        vec![1, 4, 0, 0, 0, 0],
        vec![1, 3, 1, 0, 0, 0],
        vec![2, 0],
        vec![2, 2, b'a'],
        vec![3, 1, b'a'],
        vec![0, 4, 1, 0, 0, 0],
    ] {
        assert_eq!(parse_identifier_at(&broken, 0).unwrap_err(), IggyError::InvalidIdentifier);
    }
}

#[test]
fn partitionings_on_the_wire() {
    assert_eq!(bytes_of(|buffer| write_partitioning(&Partitioning::balanced(), buffer)), vec![1, 0]);
    assert_eq!(bytes_of(|buffer| write_partitioning(&Partitioning::partition_id(3), buffer)), vec![2, 4, 3, 0, 0, 0]);
    let key = Partitioning::messages_key(b"ab".to_vec()).unwrap();
    assert_eq!(bytes_of(|buffer| write_partitioning(&key, buffer)), vec![3, 2, b'a', b'b']);
    let (read, next) = parse_partitioning_at(&[0, 3, 2, b'a', b'b', 0], 1).unwrap();
    assert_eq!((read.kind, read.length, read.value, next), (PartitioningKind::MessagesKey, 2, b"ab".to_vec(), 5));
    let (read, next) = parse_partitioning_at(&[1, 0], 0).unwrap();
    assert_eq!((read.kind, read.length, read.value.len(), next), (PartitioningKind::Balanced, 0, 0, 2));
    let (read, _) = parse_partitioning_at(&[2, 4, 3, 0, 0, 0], 0).unwrap();
    assert_eq!(read.named_partition(), Some(3));
    for broken in [vec![], vec![1], vec![0, 0], vec![4, 0], vec![1, 1, 0], vec![2, 3, 0, 0, 0], vec![3, 0], vec![3, 2, 1]] {
        assert_eq!(parse_partitioning_at(&broken, 0).unwrap_err(), IggyError::InvalidPartitioning);
    }
}

#[test]
fn consumers_and_strategies_on_the_wire() {
    assert_eq!(bytes_of(|buffer| write_consumer(&Consumer::new(0x0102), buffer)), vec![1, 2, 1, 0, 0]);
    assert_eq!(bytes_of(|buffer| write_consumer(&Consumer::group(7), buffer)), vec![2, 7, 0, 0, 0]);
    assert_eq!(parse_consumer_at(&[9, 2, 7, 0, 0, 0], 1), Some(Consumer::group(7)));
    assert_eq!(parse_consumer_at(&[1, 7, 0, 0, 0], 0), Some(Consumer::new(7)));
    assert_eq!(parse_consumer_at(&[3, 7, 0, 0, 0], 0), None);
    assert_eq!(parse_consumer_at(&[1, 7, 0, 0], 0), None);
    let strategies = [
        (PollingStrategy::Offset(0x0102), vec![1, 2, 1, 0, 0, 0, 0, 0, 0]),
        (PollingStrategy::Timestamp(5), vec![2, 5, 0, 0, 0, 0, 0, 0, 0]),
        (PollingStrategy::First, vec![3, 0, 0, 0, 0, 0, 0, 0, 0]),
        (PollingStrategy::Latest(3), vec![4, 3, 0, 0, 0, 0, 0, 0, 0]),
        (PollingStrategy::Next, vec![5, 0, 0, 0, 0, 0, 0, 0, 0]),
    ];
    for (strategy, bytes) in strategies {
        assert_eq!(bytes_of(|buffer| write_strategy(&strategy, buffer)), bytes);
        assert_eq!(parse_strategy_at(&bytes, 0), Some(strategy));
    }
    assert_eq!(parse_strategy_at(&[3, 1, 0, 0, 0, 0, 0, 0, 0], 0), None);
    assert_eq!(parse_strategy_at(&[5, 0, 0, 0, 0, 0, 0, 0, 1], 0), None);
    assert_eq!(parse_strategy_at(&[6, 0, 0, 0, 0, 0, 0, 0, 0], 0), None);
    assert_eq!(parse_strategy_at(&[0, 0, 0, 0, 0, 0, 0, 0, 0], 0), None);
    assert_eq!(parse_strategy_at(&[1, 0, 0, 0, 0, 0, 0, 0], 0), None);
}

#[test]
fn messages_on_the_wire() {
    let plain = Message::new(Some(0x0102), Bytes::from_static(b"hey"), None);
    let bytes = bytes_of(|buffer| write_message(&plain, buffer));
    let mut expected = vec![2, 1, 0, 0, 0, 0, 0, 0, 0, 0, 0, 0, 0, 0, 0, 0];
    expected.extend_from_slice(&[0, 0, 0, 0, 3, 0, 0, 0, b'h', b'e', b'y']);
    assert_eq!(bytes, expected);
    let (read, next) = parse_message_at(&bytes, 0).unwrap();
    assert_eq!((read.id, read.length, next), (0x0102, 3, 27));
    assert_eq!(&read.payload[..], b"hey");
    assert!(read.headers.is_none());

    let headers = vec![Header::new(b"k".to_vec(), HeaderKind::Bool, vec![1]).unwrap()];
    let with_headers = Message::new(None, Bytes::new(), Some(headers));
    let bytes = bytes_of(|buffer| write_message(&with_headers, buffer));
    assert_eq!(&bytes[16..], &[8, 0, 0, 0, 1, b'k', 3, 1, 0, 0, 0, 1, 0, 0, 0, 0]);
    let (read, next) = parse_message_at(&bytes, 0).unwrap();
    assert_eq!(next, 32);
    assert_eq!(read.length, 0);
    let read_headers = read.headers.unwrap();
    assert_eq!(read_headers.len(), 1);
    assert_eq!(read_headers[0].name().as_slice(), b"k");
    assert_eq!(read_headers[0].kind(), HeaderKind::Bool);
    assert_eq!(read_headers[0].value().as_slice(), &[1]);

    assert!(parse_message_at(&bytes[..31], 0).is_none());
    assert!(parse_message_at(&bytes[..19], 0).is_none());
    let mut broken = bytes.clone();
    broken[22] = 0;
    assert!(parse_message_at(&broken, 0).is_none());
    assert!(parse_messages_at(&broken, 0).is_none());
    assert_eq!(parse_messages_at(&bytes, 32).unwrap().len(), 0);
    let mut two = bytes.clone();
    two.extend(bytes_of(|buffer| write_message(&plain, buffer)));
    let read = parse_messages_at(&two, 0).unwrap();
    assert_eq!(read.len(), 2);
    assert_eq!(read[1].id, 0x0102);
    two.push(0);
    assert!(parse_messages_at(&two, 0).is_none());
}

#[test]
fn flush_command_round_trip() {
    let command = iggy_engine::http::flush_unsaved_buffer("7", "logs", 3, true).unwrap();
    let bytes = bytes_of(|buffer| command.extend(buffer));
    assert_eq!(bytes, vec![1, 4, 7, 0, 0, 0, 2, 4, b'l', b'o', b'g', b's', 3, 0, 0, 0, 1]);
    let read = FlushUnsavedBuffer::from_bytes(&bytes).unwrap();
    assert_eq!(read.stream_id.get_u32_value(), Some(7));
    assert_eq!(read.topic_id.get_name().unwrap().as_slice(), b"logs");
    assert_eq!((read.partition_id, read.fsync), (3, true));
    assert_eq!(bytes_of(|buffer| read.extend(buffer)), bytes);
    let mut broken = bytes.clone();
    broken[16] = 2;
    assert_eq!(FlushUnsavedBuffer::from_bytes(&broken).unwrap_err(), IggyError::InvalidNumberEncoding);
    assert_eq!(FlushUnsavedBuffer::from_bytes(&bytes[..16]).unwrap_err(), IggyError::InvalidNumberEncoding);
    broken.push(0);
    assert_eq!(FlushUnsavedBuffer::from_bytes(&broken).unwrap_err(), IggyError::InvalidNumberEncoding);
    assert_eq!(FlushUnsavedBuffer::from_bytes(&bytes[..8]).unwrap_err(), IggyError::InvalidIdentifier);
    assert_eq!(FlushUnsavedBuffer::from_bytes(&[]).unwrap_err(), IggyError::InvalidIdentifier);
}

#[test]
fn poll_command_round_trip() {
    let command = PollMessages {
        stream_id: Identifier::named("s").unwrap(),
        topic_id: Identifier::numeric(2).unwrap(),
        partition_id: Some(4),
        consumer: Consumer::group(9),
        strategy: PollingStrategy::Timestamp(0x0100),
        count: 10,
        auto_commit: true,
    };
    let bytes = bytes_of(|buffer| command.extend(buffer));
    let mut expected = vec![2, 9, 0, 0, 0, 2, 1, b's', 1, 4, 2, 0, 0, 0, 4, 0, 0, 0];
    expected.extend_from_slice(&[2, 0, 1, 0, 0, 0, 0, 0, 0, 10, 0, 0, 0, 1]);
    assert_eq!(bytes, expected);
    let read = PollMessages::from_bytes(&bytes).unwrap();
    assert_eq!(read.consumer, Consumer::group(9));
    assert_eq!(read.stream_id.get_name().unwrap().as_slice(), b"s");
    assert_eq!(read.topic_id.get_u32_value(), Some(2));
    assert_eq!(read.partition_id, Some(4));
    assert_eq!(read.strategy, PollingStrategy::Timestamp(0x0100));
    assert_eq!((read.count, read.auto_commit), (10, true));
    assert_eq!(bytes_of(|buffer| read.extend(buffer)), bytes);

    let mut none = command;
    none.partition_id = None;
    none.auto_commit = false;
    none.strategy = PollingStrategy::Next;
    let bytes = bytes_of(|buffer| none.extend(buffer));
    let read = PollMessages::from_bytes(&bytes).unwrap();
    assert_eq!((read.partition_id, read.auto_commit, read.strategy), (None, false, PollingStrategy::Next));

    let mut broken = expected.clone();
    broken[0] = 3;
    assert_eq!(PollMessages::from_bytes(&broken).unwrap_err(), IggyError::InvalidNumberEncoding);
    let mut broken = expected.clone();
    broken[6] = 0;
    assert_eq!(PollMessages::from_bytes(&broken).unwrap_err(), IggyError::InvalidIdentifier);
    let mut broken = expected.clone();
    broken[18] = 9;
    assert_eq!(PollMessages::from_bytes(&broken).unwrap_err(), IggyError::InvalidNumberEncoding);
    let mut broken = expected.clone();
    broken[31] = 2;
    assert_eq!(PollMessages::from_bytes(&broken).unwrap_err(), IggyError::InvalidNumberEncoding);
    assert_eq!(PollMessages::from_bytes(&expected[..31]).unwrap_err(), IggyError::InvalidNumberEncoding);
    assert_eq!(PollMessages::from_bytes(&expected[..4]).unwrap_err(), IggyError::InvalidNumberEncoding);
}

#[test]
fn send_command_round_trip() {
    let headers = vec![Header::new(b"k".to_vec(), HeaderKind::Uint8, vec![5]).unwrap()];
    let command = SendMessages {
        stream_id: Identifier::numeric(1).unwrap(),
        topic_id: Identifier::named("t").unwrap(),
        partitioning: Partitioning::messages_key(b"key".to_vec()).unwrap(),
        messages: vec![
            Message::new(Some(1), Bytes::from_static(b"one"), None),
            Message::new(Some(2), Bytes::from_static(b"two"), Some(headers)),
        ],
    };
    let bytes = bytes_of(|buffer| command.extend(buffer));
    assert_eq!(&bytes[..14], &[1, 4, 1, 0, 0, 0, 2, 1, b't', 3, 3, b'k', b'e', b'y']);
    assert_eq!(bytes.len(), 14 + 27 + 35);
    let read = SendMessages::from_bytes(&bytes).unwrap();
    assert_eq!(read.stream_id.get_u32_value(), Some(1));
    assert_eq!(read.topic_id.get_name().unwrap().as_slice(), b"t");
    assert_eq!(read.partitioning.kind, PartitioningKind::MessagesKey);
    assert_eq!(read.partitioning.value, b"key".to_vec());
    assert_eq!(read.messages.len(), 2);
    assert_eq!((read.messages[0].id, &read.messages[0].payload[..]), (1, &b"one"[..]));
    assert_eq!((read.messages[1].id, &read.messages[1].payload[..]), (2, &b"two"[..]));
    assert_eq!(read.messages[1].headers.as_ref().unwrap()[0].value().as_slice(), &[5]);
    assert_eq!(bytes_of(|buffer| read.extend(buffer)), bytes);

    assert_eq!(SendMessages::from_bytes(&bytes[..14]).unwrap().messages.len(), 0);
    assert_eq!(SendMessages::from_bytes(&bytes[..15]).unwrap_err(), IggyError::InvalidNumberEncoding);
    assert_eq!(SendMessages::from_bytes(&bytes[..13]).unwrap_err(), IggyError::InvalidPartitioning);
    assert_eq!(SendMessages::from_bytes(&bytes[..8]).unwrap_err(), IggyError::InvalidIdentifier);
    assert_eq!(SendMessages::from_bytes(&bytes[..3]).unwrap_err(), IggyError::InvalidIdentifier);
}
