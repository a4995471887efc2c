use bytes::Bytes;
use iggy_engine::commands::{Consumer, ConsumerKind, PollMessages, PollingArgs, PollingStrategy, SendMessages};
use iggy_engine::error::IggyError;
use iggy_engine::http::{assign_ids, flush_unsaved_buffer, poll_messages, send_messages};
use iggy_engine::http::{PollRequest, STATUS_CREATED, STATUS_OK};
use iggy_engine::identifier::Identifier;
use iggy_engine::message::Message;
use iggy_engine::partition::{AssignedRange, SegmentLimits};
use iggy_engine::partitioning::{Partitioning, PartitioningKind};
use iggy_engine::producer::build_batch;
use iggy_engine::random_id::resolve_id;
use iggy_engine::stream::{identifies, same_bytes, Stream};
use iggy_engine::system::System;
use iggy_engine::topic::Topic;

fn placeholder() -> Identifier {
    Identifier::numeric(1).unwrap()
}

fn body(partitioning: Partitioning, messages: Vec<Message>) -> SendMessages {
    SendMessages { stream_id: placeholder(), topic_id: placeholder(), partitioning, messages }
}

fn query(partition_id: Option<u32>, strategy: PollingStrategy, count: u32) -> PollMessages {
    PollMessages {
        stream_id: placeholder(),
        topic_id: placeholder(),
        partition_id,
        consumer: Consumer::group(17),
        strategy,
        count,
        auto_commit: true,
    }
}

fn text(payload: &'static str) -> Message {
    Message::from_text(payload)
}

fn broker() -> System {
    let mut system = System::new();
    system.create_stream(1, "production").unwrap();
    system.create_stream(2, "staging").unwrap();
    let production = Identifier::numeric(1).unwrap();
    system.create_topic(&production, Topic::new(1, "orders", 3, limits(4096), None, None).unwrap()).unwrap();
    system.create_topic(&production, Topic::new(2, "payments", 1, limits(4096), None, None).unwrap()).unwrap();
    system
}

fn limits(size: u64) -> SegmentLimits {
    SegmentLimits { size, max_messages: u64::MAX }
}

#[test]
fn statuses() {
    assert_eq!(STATUS_OK, 200);
    assert_eq!(STATUS_CREATED, 201);
}

#[test]
fn send_takes_its_target_from_the_path() {
    let command = body(
        Partitioning { kind: PartitioningKind::MessagesKey, length: 0, value: b"key".to_vec() },
        vec![Message::new(Some(77), Bytes::from_static(b"a"), None), text("b")],
    );
    let accepted = send_messages("12", "orders", command).unwrap();
    assert_eq!(accepted.stream_id.get_u32_value(), Some(12));
    assert_eq!(accepted.topic_id.get_name().unwrap().as_slice(), b"orders");
    assert_eq!(accepted.partitioning.kind, PartitioningKind::MessagesKey);
    assert_eq!(accepted.partitioning.length, 3);
    assert_eq!(accepted.partitioning.value, b"key".to_vec());
    assert_eq!(accepted.messages.len(), 2);
    assert_eq!(accepted.messages[0].id, 77);
    assert_ne!(accepted.messages[1].id, 0);
    assert_eq!(&accepted.messages[0].payload[..], b"a");
    assert_eq!(&accepted.messages[1].payload[..], b"b");
}

#[test]
fn send_is_refused_for_a_bad_path_first() {
    let oversized = Message::new(None, Bytes::from(vec![0; 10_000_001]), None);
    let invalid = Partitioning { kind: PartitioningKind::PartitionId, length: 0, value: vec![1] };
    assert_eq!(
        send_messages("0", "orders", body(invalid, vec![oversized])).unwrap_err(),
        IggyError::InvalidIdentifier
    );
    assert_eq!(
        send_messages("1", "", body(Partitioning::balanced(), vec![text("a")])).unwrap_err(),
        IggyError::InvalidIdentifier
    );
    let oversized = Message::new(None, Bytes::from(vec![0; 10_000_001]), None);
    let invalid = Partitioning { kind: PartitioningKind::PartitionId, length: 0, value: vec![1] };
    assert_eq!(
        send_messages("1", "orders", body(invalid, vec![oversized])).unwrap_err(),
        IggyError::InvalidPartitioning
    );
    let oversized = Message::new(None, Bytes::from(vec![0; 10_000_001]), None);
    assert_eq!(
        send_messages("1", "orders", body(Partitioning::balanced(), vec![text("a"), oversized])).unwrap_err(),
        IggyError::InvalidMessagePayloadLength
    );
    let long_key = Partitioning { kind: PartitioningKind::MessagesKey, length: 0, value: vec![1; 256] };
    assert_eq!(
        send_messages("1", "orders", body(long_key, vec![text("a")])).unwrap_err(),
        IggyError::InvalidPartitioning
    );
}

#[test]
fn missing_ids_are_filled_in() {
    let mut messages = vec![
        Message::new(None, Bytes::from_static(b"a"), None),
        Message::new(Some(5), Bytes::from_static(b"b"), None),
        Message::new(Some(0), Bytes::from_static(b"c"), None),
    ];
    assign_ids(&mut messages);
    assert_eq!(messages.len(), 3);
    assert_ne!(messages[0].id, 0);
    assert_eq!(messages[1].id, 5);
    assert_ne!(messages[2].id, 0);
    assert_ne!(messages[0].id, messages[2].id);
    assert_eq!(&messages[0].payload[..], b"a");
    assert_eq!(&messages[2].payload[..], b"c");
    assert_eq!(messages[0].length, 1);
    assert_eq!(resolve_id(0, 9), 9);
    assert_eq!(resolve_id(4, 9), 4);
}

#[test]
fn poll_is_made_on_behalf_of_a_single_consumer() {
    let request = poll_messages("production", "2", query(Some(3), PollingStrategy::Offset(10), 25)).unwrap();
    assert_eq!(request.stream_id.get_name().unwrap().as_slice(), b"production");
    assert_eq!(request.topic_id.get_u32_value(), Some(2));
    assert_eq!(request.partition_id, Some(3));
    assert_eq!(request.consumer, Consumer { kind: ConsumerKind::Consumer, id: 17 });
    assert_eq!(Consumer::new(17), Consumer { kind: ConsumerKind::Consumer, id: 17 });
    assert_eq!(
        request.args,
        PollingArgs { strategy: PollingStrategy::Offset(10), count: 25, auto_commit: true }
    );
    assert_eq!(
        PollingArgs::new(PollingStrategy::Next, 1, false),
        PollingArgs { strategy: PollingStrategy::Next, count: 1, auto_commit: false }
    );
    assert_eq!(
        poll_messages("", "2", query(None, PollingStrategy::First, 1)).unwrap_err(),
        IggyError::InvalidIdentifier
    );
    assert_eq!(
        poll_messages("1", "0", query(None, PollingStrategy::First, 1)).unwrap_err(),
        IggyError::InvalidIdentifier
    );
    assert!(query(None, PollingStrategy::First, 0).validate().is_ok());
}

#[test]
fn flush_names_its_partition() {
    let command = flush_unsaved_buffer("3", "logs", 2, true).unwrap();
    assert_eq!(command.stream_id.get_u32_value(), Some(3));
    assert_eq!(command.topic_id.get_name().unwrap().as_slice(), b"logs");
    assert_eq!(command.partition_id, 2);
    assert!(command.fsync);
    assert!(!flush_unsaved_buffer("3", "logs", 2, false).unwrap().fsync);
    assert_eq!(flush_unsaved_buffer("0", "logs", 2, true).unwrap_err(), IggyError::InvalidIdentifier);
    assert_eq!(flush_unsaved_buffer("3", "", 2, true).unwrap_err(), IggyError::InvalidIdentifier);
}

#[test]
fn producer_batches_go_to_one_partition() {
    let texts = vec!["{\"a\":1}".to_string(), "second".to_string()];
    let command = build_batch(3, 4, 2, &texts).unwrap();
    assert_eq!(command.stream_id.get_u32_value(), Some(3));
    assert_eq!(command.topic_id.get_u32_value(), Some(4));
    assert_eq!(command.partitioning.kind, PartitioningKind::PartitionId);
    assert_eq!(command.partitioning.named_partition(), Some(2));
    assert_eq!(command.messages.len(), 2);
    assert_eq!(&command.messages[0].payload[..], b"{\"a\":1}");
    assert_eq!(&command.messages[1].payload[..], b"second");
    assert_eq!(command.messages[0].id, 0);
    assert!(command.messages[1].headers.is_none());
    assert!(command.validate().is_ok());
    assert_eq!(build_batch(0, 4, 2, &texts).unwrap_err(), IggyError::InvalidIdentifier);
    assert_eq!(build_batch(3, 0, 2, &texts).unwrap_err(), IggyError::InvalidIdentifier);
    assert!(build_batch(3, 4, 2, &Vec::new()).unwrap().messages.is_empty());
}

#[test]
fn streams_and_topics_are_found_by_id_or_name() {
    let system = broker();
    assert_eq!(system.get_streams().len(), 2);
    assert_eq!(system.find_stream(&Identifier::numeric(2).unwrap()), Some(1));
    assert_eq!(system.find_stream(&Identifier::named("production").unwrap()), Some(0));
    assert_eq!(system.find_stream(&Identifier::named("2").unwrap()), None);
    assert_eq!(system.find_stream(&Identifier::numeric(3).unwrap()), None);
    let stream = system.get_stream(&Identifier::named("production").unwrap()).unwrap();
    assert_eq!(stream.stream_id(), 1);
    assert_eq!(stream.get_name().as_slice(), b"production");
    assert_eq!(stream.get_topics().len(), 2);
    assert_eq!(stream.find_topic(&Identifier::named("payments").unwrap()), Some(1));
    assert_eq!(stream.find_topic(&Identifier::numeric(1).unwrap()), Some(0));
    assert_eq!(stream.get_topic(&Identifier::numeric(2).unwrap()).unwrap().topic_id(), 2);
    assert_eq!(
        stream.get_topic(&Identifier::named("orders").unwrap()).unwrap().partitions_count(),
        3
    );
    assert_eq!(
        stream.get_topic(&Identifier::numeric(9).unwrap()).unwrap_err(),
        IggyError::TopicNotFound
    );
    assert_eq!(
        system.get_stream(&Identifier::named("nowhere").unwrap()).unwrap_err(),
        IggyError::StreamNotFound
    );
    assert!(identifies(&Identifier::numeric(4).unwrap(), 4, &b"x".to_vec()));
    assert!(!identifies(&Identifier::numeric(4).unwrap(), 5, &b"4".to_vec()));
    assert!(identifies(&Identifier::named("x").unwrap(), 5, &b"x".to_vec()));
    assert!(!identifies(&Identifier::named("x").unwrap(), 5, &b"y".to_vec()));
    assert!(same_bytes(b"abc", b"abc"));
    assert!(!same_bytes(b"abc", b"abd"));
    assert!(!same_bytes(b"abc", b"ab"));
    assert!(same_bytes(b"", b""));
}

#[test]
fn ids_and_names_are_unique() {
    let mut system = broker();
    assert_eq!(system.create_stream(1, "other").unwrap_err(), IggyError::StreamAlreadyExists);
    assert_eq!(system.create_stream(3, "staging").unwrap_err(), IggyError::StreamAlreadyExists);
    assert_eq!(system.create_stream(0, "zero").unwrap_err(), IggyError::InvalidIdentifier);
    assert_eq!(system.create_stream(3, "").unwrap_err(), IggyError::InvalidIdentifier);
    assert_eq!(system.get_streams().len(), 2);
    assert!(system.create_stream(3, "third").is_ok());
    let production = Identifier::numeric(1).unwrap();
    let topic = |id: u32, name: &str| Topic::new(id, name, 1, limits(4096), None, None).unwrap();
    assert_eq!(system.create_topic(&production, topic(1, "new")).unwrap_err(), IggyError::TopicAlreadyExists);
    assert_eq!(system.create_topic(&production, topic(3, "orders")).unwrap_err(), IggyError::TopicAlreadyExists);
    assert_eq!(system.create_topic(&production, topic(0, "zero")).unwrap_err(), IggyError::InvalidIdentifier);
    assert_eq!(
        system.create_topic(&Identifier::numeric(9).unwrap(), topic(3, "new")).unwrap_err(),
        IggyError::StreamNotFound
    );
    // the same id and name are free in another stream
    assert!(system.create_topic(&Identifier::named("staging").unwrap(), topic(1, "orders")).is_ok());
    assert_eq!(system.get_streams()[0].get_topics().len(), 2);
    assert_eq!(system.get_streams()[1].get_topics().len(), 1);
    let mut stream = Stream::new(5, "five").unwrap();
    assert!(stream.create_topic(topic(1, "one")).is_ok());
    assert_eq!(stream.create_topic(topic(1, "uno")).unwrap_err(), IggyError::TopicAlreadyExists);
    assert_eq!(Stream::new(0, "zero").unwrap_err(), IggyError::InvalidIdentifier);
}

#[test]
fn commands_are_dispatched_to_their_topic() {
    let mut system = broker();
    let command = send_messages(
        "production",
        "orders",
        body(Partitioning::partition_id(2), vec![text("a"), text("b"), text("c")]),
    )
    .unwrap();
    assert_eq!(system.append_messages(command, 10).unwrap(), (2, AssignedRange { first: 0, count: 3 }));
    let command = send_messages("1", "1", body(Partitioning::balanced(), vec![text("d")])).unwrap();
    assert_eq!(system.append_messages(command, 11).unwrap(), (1, AssignedRange { first: 0, count: 1 }));
    let command = send_messages("1", "1", body(Partitioning::balanced(), vec![text("e")])).unwrap();
    assert_eq!(system.append_messages(command, 12).unwrap(), (2, AssignedRange { first: 3, count: 1 }));

    let request = poll_messages("1", "orders", query(Some(2), PollingStrategy::Offset(1), 10)).unwrap();
    let polled = system.poll_messages(&request, None).unwrap();
    assert_eq!(polled.partition_id, 2);
    assert_eq!(polled.current_offset, 3);
    let payloads: Vec<&[u8]> = polled.messages.iter().map(|message| &message.payload[..]).collect();
    assert_eq!(payloads, vec![&b"b"[..], &b"c"[..], &b"e"[..]]);
    let timestamps: Vec<u64> = polled.messages.iter().map(|message| message.timestamp).collect();
    assert_eq!(timestamps, vec![10, 10, 12]);
    assert!(polled.messages.iter().all(|message| message.id != 0));

    let request = poll_messages("1", "orders", query(Some(2), PollingStrategy::Next, 10)).unwrap();
    let polled = system.poll_messages(&request, Some(2)).unwrap();
    assert_eq!(polled.messages.len(), 1);
    assert_eq!(polled.messages[0].offset, 3);
}

#[test]
fn commands_to_nowhere_are_refused() {
    let mut system = broker();
    let command = send_messages("9", "orders", body(Partitioning::balanced(), vec![text("a")])).unwrap();
    assert_eq!(system.append_messages(command, 1).unwrap_err(), IggyError::StreamNotFound);
    let command = send_messages("1", "nothing", body(Partitioning::balanced(), vec![text("a")])).unwrap();
    assert_eq!(system.append_messages(command, 1).unwrap_err(), IggyError::TopicNotFound);
    let command = send_messages("1", "payments", body(Partitioning::partition_id(2), vec![text("a")])).unwrap();
    assert_eq!(system.append_messages(command, 1).unwrap_err(), IggyError::PartitionNotFound);
    let command = send_messages("2", "orders", body(Partitioning::balanced(), vec![text("a")])).unwrap();
    assert_eq!(system.append_messages(command, 1).unwrap_err(), IggyError::TopicNotFound);

    let poll = |stream: &str, topic: &str, partition: Option<u32>| -> PollRequest {
        poll_messages(stream, topic, query(partition, PollingStrategy::First, 1)).unwrap()
    };
    assert_eq!(system.poll_messages(&poll("9", "1", Some(1)), None).unwrap_err(), IggyError::StreamNotFound);
    assert_eq!(system.poll_messages(&poll("1", "9", Some(1)), None).unwrap_err(), IggyError::TopicNotFound);
    assert_eq!(system.poll_messages(&poll("1", "9", None), None).unwrap_err(), IggyError::TopicNotFound);
    assert_eq!(system.poll_messages(&poll("1", "1", Some(4)), None).unwrap_err(), IggyError::PartitionNotFound);
    assert_eq!(system.poll_messages(&poll("1", "1", None), None).unwrap_err(), IggyError::PartitionNotFound);
    assert!(system.poll_messages(&poll("1", "1", Some(3)), None).unwrap().messages.is_empty());

    let flush = |stream: &str, topic: &str, partition: u32| flush_unsaved_buffer(stream, topic, partition, true).unwrap();
    assert_eq!(system.resolve_flush(&flush("production", "payments", 1)).unwrap(), (0, 1, 1));
    assert_eq!(system.resolve_flush(&flush("1", "1", 3)).unwrap(), (0, 0, 3));
    assert_eq!(system.resolve_flush(&flush("1", "1", 4)).unwrap_err(), IggyError::PartitionNotFound);
    assert_eq!(system.resolve_flush(&flush("1", "1", 0)).unwrap_err(), IggyError::PartitionNotFound);
    assert_eq!(system.resolve_flush(&flush("1", "3", 1)).unwrap_err(), IggyError::TopicNotFound);
    assert_eq!(system.resolve_flush(&flush("3", "1", 1)).unwrap_err(), IggyError::StreamNotFound);
}

#[test]
fn retention_runs_on_every_topic() {
    let mut system = System::new();
    system.create_stream(1, "production").unwrap();
    let production = Identifier::numeric(1).unwrap();
    system.create_topic(&production, Topic::new(1, "orders", 1, limits(100), Some(50), None).unwrap()).unwrap();
    system.create_topic(&production, Topic::new(2, "audit", 1, limits(100), None, None).unwrap()).unwrap();
    for topic in ["orders", "audit"] {
        for now in [10, 20, 30] {
            let payload = Message::new(None, Bytes::from(vec![0; 100]), None);
            let command = send_messages("1", topic, body(Partitioning::balanced(), vec![payload])).unwrap();
            system.append_messages(command, now).unwrap();
        }
    }
    system.apply_retention(75);
    let topics = system.get_streams()[0].get_topics();
    let orders: Vec<u64> =
        topics[0].get_partition(1).unwrap().get_segments().iter().map(|segment| segment.base_offset).collect();
    let audit: Vec<u64> =
        topics[1].get_partition(1).unwrap().get_segments().iter().map(|segment| segment.base_offset).collect();
    assert_eq!(orders, vec![2, 3]);
    assert_eq!(audit, vec![0, 1, 2, 3]);
}
