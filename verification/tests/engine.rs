use bytes::Bytes;
use iggy_engine::commands::{validate_message, validate_messages, PollingStrategy, SendMessages};
use iggy_engine::commands::{MAX_HEADERS_SIZE, MAX_PAYLOAD_SIZE};
use iggy_engine::consumer_group::ConsumerGroup;
use iggy_engine::error::IggyError;
use iggy_engine::headers::{Header, HeaderKind};
use iggy_engine::message::Message;
use iggy_engine::partition::{AssignedRange, Partition, SegmentLimits, StoredSegment};
use iggy_engine::partitioning::Partitioning;
use iggy_engine::topic::{route, Topic};

fn payload_of(size: usize) -> Message {
    Message::new(None, Bytes::from(vec![b'x'; size]), None)
}

fn batch_of(count: usize, size: usize) -> Vec<Message> {
    (0..count).map(|_| payload_of(size)).collect()
}

fn offsets_of(partition: &Partition, start: u64, count: u32) -> Vec<u64> {
    partition.poll(start, count).iter().map(|message| message.offset).collect()
}

fn limits(size: u64) -> SegmentLimits {
    SegmentLimits { size, max_messages: u64::MAX }
}

#[test]
fn limits_of_a_message() {
    assert_eq!(MAX_HEADERS_SIZE, 100_000);
    assert_eq!(MAX_PAYLOAD_SIZE, 10_000_000);
}

#[test]
fn offsets_are_dense_across_appends() {
    let mut partition = Partition::new(1, limits(1_000_000));
    assert!(partition.is_empty());
    assert_eq!(partition.current_offset(), 0);
    assert_eq!(partition.append(batch_of(3, 10), 100).unwrap(), AssignedRange { first: 0, count: 3 });
    assert!(!partition.is_empty());
    assert_eq!(partition.current_offset(), 2);
    assert_eq!(partition.append(batch_of(2, 10), 200).unwrap(), AssignedRange { first: 3, count: 2 });
    assert_eq!(partition.append(Vec::new(), 300).unwrap(), AssignedRange { first: 5, count: 0 });
    assert_eq!(partition.append(batch_of(1, 10), 400).unwrap(), AssignedRange { first: 5, count: 1 });
    assert_eq!(partition.current_offset(), 5);
    assert_eq!(partition.message_count(), 6);
    assert_eq!(offsets_of(&partition, 0, 100), vec![0, 1, 2, 3, 4, 5]);
    let timestamps: Vec<u64> = partition.poll(0, 100).iter().map(|message| message.timestamp).collect();
    assert_eq!(timestamps, vec![100, 100, 100, 200, 200, 400]);
}

#[test]
fn timestamps_never_run_backwards() {
    let mut partition = Partition::new(1, limits(1_000_000));
    partition.append(batch_of(1, 1), 500).unwrap();
    partition.append(batch_of(1, 1), 300).unwrap();
    partition.append(batch_of(1, 1), 600).unwrap();
    let timestamps: Vec<u64> = partition.poll(0, 10).iter().map(|message| message.timestamp).collect();
    assert_eq!(timestamps, vec![500, 500, 600]);
}

#[test]
fn poll_first_ten() {
    let mut topic = Topic::new(1, "orders", 3, limits(4096), None, None).unwrap();
    for _ in 0..1000 {
        topic.append_messages(&Partitioning::balanced(), batch_of(1, 50), 1).unwrap();
    }
    let polled = topic.poll_messages(1, PollingStrategy::First, 10, None).unwrap();
    assert_eq!(polled.partition_id, 1);
    let offsets: Vec<u64> = polled.messages.iter().map(|message| message.offset).collect();
    assert_eq!(offsets, vec![0, 1, 2, 3, 4, 5, 6, 7, 8, 9]);
}

#[test]
fn balanced_sends_are_spread_evenly() {
    let mut topic = Topic::new(1, "orders", 3, limits(4096), None, None).unwrap();
    for index in 0..1000u32 {
        let (partition_id, range) =
            topic.append_messages(&Partitioning::balanced(), batch_of(1, 50), 1).unwrap();
        assert_eq!(partition_id, index % 3 + 1);
        assert_eq!(range, AssignedRange { first: (index / 3) as u64, count: 1 });
    }
    let counts: Vec<u64> = (1..=3)
        .map(|id| {
            let partition = topic.get_partition(id).unwrap();
            let segments = partition.get_segments();
            let last = segments[segments.len() - 1];
            last.base_offset + last.message_count
        })
        .collect();
    assert_eq!(counts, vec![334, 333, 333]);
    assert_eq!(topic.get_partition(1).unwrap().current_offset(), 333);
    let total: u64 = (1..=3).map(|id| topic.get_partition(id).unwrap().current_offset() + 1).sum();
    assert_eq!(total, 1000);
    assert_eq!(topic.poll_messages(2, PollingStrategy::First, 1, None).unwrap().current_offset, 332);
}

#[test]
fn too_big_headers_are_rejected() {
    let mut topic = Topic::new(1, "orders", 3, limits(4096), None, None).unwrap();
    topic.append_messages(&Partitioning::partition_id(1), batch_of(2, 50), 1).unwrap();
    let blob = Header::new(b"blob".to_vec(), HeaderKind::Raw, vec![0; 200_000]).unwrap();
    let message = Message::new(None, Bytes::from_static(b"p"), Some(vec![blob]));
    let result = topic.append_messages(&Partitioning::partition_id(1), vec![message], 2);
    assert_eq!(result.unwrap_err(), IggyError::TooBigHeadersPayload);
    assert_eq!(topic.get_partition(1).unwrap().current_offset(), 1);
    assert_eq!(topic.get_partition(1).unwrap().message_count(), 2);
}

#[test]
fn size_limits_are_exact() {
    assert!(validate_message(&payload_of(10_000_000)).is_ok());
    assert_eq!(
        validate_message(&payload_of(10_000_001)).unwrap_err(),
        IggyError::InvalidMessagePayloadLength
    );
    // an entry takes 6 bytes besides its name and its value
    let fits = Header::new(b"k".to_vec(), HeaderKind::Raw, vec![0; 100_000 - 7]).unwrap();
    assert!(validate_message(&Message::new(None, Bytes::new(), Some(vec![fits]))).is_ok());
    let over = Header::new(b"k".to_vec(), HeaderKind::Raw, vec![0; 100_000 - 6]).unwrap();
    assert_eq!(
        validate_message(&Message::new(None, Bytes::new(), Some(vec![over]))).unwrap_err(),
        IggyError::TooBigHeadersPayload
    );
    let both = Message::new(
        None,
        Bytes::from(vec![0; 10_000_001]),
        Some(vec![Header::new(b"k".to_vec(), HeaderKind::Raw, vec![0; 100_000]).unwrap()]),
    );
    assert_eq!(validate_message(&both).unwrap_err(), IggyError::InvalidMessagePayloadLength);
    let big_headers =
        Message::new(None, Bytes::new(), Some(vec![Header::new(b"k".to_vec(), HeaderKind::Raw, vec![0; 100_000]).unwrap()]));
    let batch = vec![payload_of(1), big_headers, payload_of(10_000_001)];
    assert_eq!(validate_messages(&batch).unwrap_err(), IggyError::TooBigHeadersPayload);
    assert!(validate_messages(&Vec::new()).is_ok());
    assert!(validate_messages(&batch_of(3, 5)).is_ok());
}

#[test]
fn refused_batch_leaves_the_partition_as_it_was() {
    let mut partition = Partition::new(1, limits(4096));
    partition.append(batch_of(2, 10), 5).unwrap();
    let batch = vec![payload_of(1), payload_of(10_000_001)];
    assert_eq!(partition.append(batch, 6).unwrap_err(), IggyError::InvalidMessagePayloadLength);
    assert_eq!(partition.current_offset(), 1);
    assert_eq!(partition.message_count(), 2);
    assert_eq!(partition.get_segments().len(), 1);
    assert_eq!(partition.get_segments()[0].size_bytes, 2 * 55);
}

#[test]
fn poll_latest_three_of_a_partition() {
    let mut topic = Topic::new(1, "orders", 3, limits(4096), None, None).unwrap();
    topic.append_messages(&Partitioning::balanced(), batch_of(5, 10), 1).unwrap();
    let second: Vec<Message> =
        (0..5u8).map(|index| Message::new(Some(100 + index as u128), Bytes::from(vec![index; 4]), None)).collect();
    let (partition_id, range) = topic.append_messages(&Partitioning::partition_id(2), second, 2).unwrap();
    assert_eq!(partition_id, 2);
    assert_eq!(range, AssignedRange { first: 0, count: 5 });
    let polled = topic.poll_messages(2, PollingStrategy::Latest(3), 10, None).unwrap();
    assert_eq!(polled.current_offset, 4);
    let ids: Vec<u128> = polled.messages.iter().map(|message| message.id).collect();
    assert_eq!(ids, vec![102, 103, 104]);
    let offsets: Vec<u64> = polled.messages.iter().map(|message| message.offset).collect();
    assert_eq!(offsets, vec![2, 3, 4]);
    assert_eq!(&polled.messages[2].payload[..], &[4, 4, 4, 4]);
}

#[test]
fn segments_roll_at_the_segment_size() {
    let mut partition = Partition::new(1, limits(4096));
    // a record of a 1000-byte payload takes 1045 bytes: four of them reach 4096
    for index in 0..10u64 {
        partition.append(batch_of(1, 1000), 1000 + index).unwrap();
    }
    let segments = partition.get_segments().clone();
    assert_eq!(segments.len(), 3);
    assert_eq!((segments[0].base_offset, segments[0].message_count), (0, 4));
    assert_eq!((segments[1].base_offset, segments[1].message_count), (4, 4));
    assert_eq!((segments[2].base_offset, segments[2].message_count), (8, 2));
    assert_eq!(segments[0].size_bytes, 4 * 1045);
    assert_eq!(segments[2].size_bytes, 2 * 1045);
    assert_eq!(segments[0].max_timestamp, 1003);
    assert_eq!(segments[1].max_timestamp, 1007);
    assert_eq!(segments[2].max_timestamp, 1009);
    assert!(segments[0].is_closed && segments[1].is_closed && !segments[2].is_closed);
    assert_eq!(partition.closed_size_bytes(), 8 * 1045);
    assert_eq!(partition.active_segment(), segments[2]);
}

#[test]
fn poll_by_timestamp_between_segments() {
    let mut partition = Partition::new(1, limits(4096));
    for index in 0..12u64 {
        partition.append(batch_of(1, 1000), 1000 + 10 * index).unwrap();
    }
    assert_eq!(partition.get_segments().len(), 4);
    // the first segment ends at 1030, the second begins at 1040
    let start = partition.resolve_start(PollingStrategy::Timestamp(1035), None);
    assert_eq!(start, partition.get_segments()[1].base_offset);
    let polled = partition.poll(start, 10);
    assert_eq!(polled[0].offset, 4);
    assert_eq!(partition.resolve_start(PollingStrategy::Timestamp(1040), None), 4);
    assert_eq!(partition.resolve_start(PollingStrategy::Timestamp(1041), None), 5);
    assert_eq!(partition.resolve_start(PollingStrategy::Timestamp(0), None), 0);
    assert_eq!(partition.resolve_start(PollingStrategy::Timestamp(5000), None), 12);
    assert!(partition.poll(12, 10).is_empty());
}

#[test]
fn poll_crosses_at_most_one_segment_boundary() {
    let mut partition = Partition::new(1, limits(4096));
    for index in 0..12u64 {
        partition.append(batch_of(1, 1000), index).unwrap();
    }
    assert_eq!(offsets_of(&partition, 0, 100), vec![0, 1, 2, 3, 4, 5, 6, 7]);
    assert_eq!(offsets_of(&partition, 3, 100), vec![3, 4, 5, 6, 7]);
    assert_eq!(offsets_of(&partition, 4, 100), vec![4, 5, 6, 7, 8, 9, 10, 11]);
    assert_eq!(offsets_of(&partition, 9, 100), vec![9, 10, 11]);
    assert_eq!(offsets_of(&partition, 2, 3), vec![2, 3, 4]);
    assert_eq!(partition.resolve_range(2, 3), (2, 5));
    assert_eq!(partition.resolve_range(0, 100), (0, 8));
    assert_eq!(partition.resolve_range(50, 100), (12, 12));
    assert!(offsets_of(&partition, 12, 100).is_empty());
    assert!(offsets_of(&partition, u64::MAX, 100).is_empty());
    assert!(offsets_of(&partition, 0, 0).is_empty());
}

#[test]
fn start_offsets() {
    let mut partition = Partition::new(1, limits(1_000_000));
    assert_eq!(partition.resolve_start(PollingStrategy::First, None), 0);
    assert_eq!(partition.resolve_start(PollingStrategy::Latest(3), None), 0);
    assert!(partition.poll(0, 10).is_empty());
    partition.append(batch_of(5, 10), 1).unwrap();
    assert_eq!(partition.resolve_start(PollingStrategy::Offset(3), Some(1)), 3);
    assert_eq!(partition.resolve_start(PollingStrategy::First, Some(1)), 0);
    assert_eq!(partition.resolve_start(PollingStrategy::Latest(1), None), 4);
    assert_eq!(partition.resolve_start(PollingStrategy::Latest(5), None), 0);
    assert_eq!(partition.resolve_start(PollingStrategy::Latest(9), None), 0);
    assert_eq!(partition.resolve_start(PollingStrategy::Latest(0), None), 5);
    assert_eq!(partition.resolve_start(PollingStrategy::Next, None), 0);
    assert_eq!(partition.resolve_start(PollingStrategy::Next, Some(0)), 1);
    assert_eq!(partition.resolve_start(PollingStrategy::Next, Some(4)), 5);
    assert_eq!(partition.resolve_start(PollingStrategy::Next, Some(u64::MAX)), u64::MAX);
}

#[test]
fn retention_drops_expired_segments() {
    let mut partition = Partition::new(1, limits(4096));
    for index in 0..10u64 {
        partition.append(batch_of(1, 1000), 1000 + index).unwrap();
    }
    // at 2005 with an expiry of 1000 the first segment, whose last message is from 1003, is too old
    assert_eq!(partition.apply_retention(2005, Some(1000), None), 1);
    let segments = partition.get_segments().clone();
    assert_eq!(segments.len(), 2);
    assert_eq!(segments[0].base_offset, 4);
    assert_eq!(partition.current_offset(), 9);
    assert_eq!(partition.message_count(), 6);
    assert_eq!(offsets_of(&partition, 0, 3), vec![4, 5, 6]);
    assert_eq!(partition.resolve_start(PollingStrategy::First, None), 4);
    // the active segment stays, however old
    assert_eq!(partition.apply_retention(1_000_000, Some(1), None), 1);
    assert_eq!(partition.get_segments().len(), 1);
    assert_eq!(partition.get_segments()[0].base_offset, 8);
    assert_eq!(partition.apply_retention(2_000_000, Some(1), Some(0)), 0);
    assert_eq!(offsets_of(&partition, 0, 10), vec![8, 9]);
    assert_eq!(partition.append(batch_of(1, 1), 5).unwrap(), AssignedRange { first: 10, count: 1 });
}

#[test]
fn retention_keeps_closed_segments_within_the_size_limit() {
    let mut partition = Partition::new(1, limits(4096));
    for index in 0..18u64 {
        partition.append(batch_of(1, 1000), index).unwrap();
    }
    assert_eq!(partition.get_segments().len(), 5);
    assert_eq!(partition.closed_size_bytes(), 4 * 4180);
    assert_eq!(partition.apply_retention(100, None, Some(4 * 4180)), 0);
    assert_eq!(partition.apply_retention(100, None, Some(2 * 4180 + 1)), 2);
    assert_eq!(partition.closed_size_bytes(), 2 * 4180);
    assert_eq!(partition.get_segments()[0].base_offset, 8);
    assert_eq!(partition.apply_retention(100, None, Some(0)), 2);
    assert_eq!(partition.closed_size_bytes(), 0);
    assert_eq!(partition.get_segments().len(), 1);
    assert_eq!(partition.current_offset(), 17);
    assert_eq!(partition.apply_retention(100, None, None), 0);
}

#[test]
fn topic_retention_runs_on_every_partition() {
    let mut topic = Topic::new(1, "orders", 2, limits(4096), Some(1000), Some(4180)).unwrap();
    for index in 0..10u64 {
        topic.append_messages(&Partitioning::partition_id(1), batch_of(1, 1000), 1000 + index).unwrap();
    }
    for index in 0..5u64 {
        topic.append_messages(&Partitioning::partition_id(2), batch_of(1, 1000), 3000 + index).unwrap();
    }
    assert_eq!(topic.apply_retention(3500), vec![2, 0]);
    assert_eq!(topic.get_partition(1).unwrap().get_segments().len(), 1);
    assert_eq!(topic.get_partition(2).unwrap().get_segments().len(), 2);
    assert_eq!(topic.get_partition(2).unwrap().closed_size_bytes(), 4180);
    assert_eq!(topic.partitions_count(), 2);
}

#[test]
fn routing() {
    assert_eq!(route(&Partitioning::balanced(), 3, 1).unwrap(), (1, 2));
    assert_eq!(route(&Partitioning::balanced(), 3, 3).unwrap(), (3, 1));
    assert_eq!(route(&Partitioning::balanced(), 1, 1).unwrap(), (1, 1));
    assert_eq!(route(&Partitioning::partition_id(2), 3, 3).unwrap(), (2, 3));
    assert_eq!(route(&Partitioning::partition_id(4), 3, 1).unwrap_err(), IggyError::PartitionNotFound);
    assert_eq!(route(&Partitioning::partition_id(0), 3, 1).unwrap_err(), IggyError::PartitionNotFound);
    // the CRC-32 of "123456789" is 0xCBF43926 = 3421780262, which leaves 2 modulo 3, 2 modulo 10
    // and 6 modulo 8
    let key = Partitioning::messages_key(b"123456789".to_vec()).unwrap();
    assert_eq!(route(&key, 3, 1).unwrap(), (3, 1));
    assert_eq!(route(&key, 10, 4).unwrap(), (3, 4));
    assert_eq!(route(&key, 8, 4).unwrap(), (7, 4));
    assert_eq!(route(&key, 1, 1).unwrap(), (1, 1));
    let invalid = Partitioning { kind: iggy_engine::partitioning::PartitioningKind::Balanced, length: 1, value: vec![0] };
    assert_eq!(route(&invalid, 3, 1).unwrap_err(), IggyError::InvalidPartitioning);
}

#[test]
fn topic_without_partitions_takes_nothing() {
    let mut topic = Topic::new(7, "empty", 0, limits(4096), None, None).unwrap();
    assert_eq!(topic.topic_id(), 7);
    assert_eq!(topic.get_name().as_slice(), b"empty");
    assert_eq!(
        topic.append_messages(&Partitioning::balanced(), batch_of(1, 1), 1).unwrap_err(),
        IggyError::PartitionNotFound
    );
    assert_eq!(
        topic.poll_messages(1, PollingStrategy::First, 1, None).unwrap_err(),
        IggyError::PartitionNotFound
    );
    assert_eq!(Topic::new(1, "", 1, limits(1), None, None).unwrap_err(), IggyError::InvalidIdentifier);
}

#[test]
fn command_validation() {
    let command = |partitioning: Partitioning, messages: Vec<Message>| SendMessages {
        stream_id: iggy_engine::identifier::Identifier::numeric(1).unwrap(),
        topic_id: iggy_engine::identifier::Identifier::numeric(1).unwrap(),
        partitioning,
        messages,
    };
    assert!(command(Partitioning::balanced(), batch_of(2, 3)).validate().is_ok());
    assert!(command(Partitioning::balanced(), Vec::new()).validate().is_ok());
    let invalid = Partitioning { kind: iggy_engine::partitioning::PartitioningKind::PartitionId, length: 0, value: Vec::new() };
    assert_eq!(
        command(invalid, vec![payload_of(10_000_001)]).validate().unwrap_err(),
        IggyError::InvalidPartitioning
    );
    assert_eq!(
        command(Partitioning::balanced(), vec![payload_of(10_000_001)]).validate().unwrap_err(),
        IggyError::InvalidMessagePayloadLength
    );
}

#[test]
fn group_assignment_is_round_robin() {
    let mut group = ConsumerGroup::new(1, 3);
    assert_eq!(group.partitions_count(), 3);
    assert_eq!(group.get_assigned_member(1), None);
    assert!(group.join(20));
    assert!(group.join(10));
    assert!(!group.join(20));
    assert_eq!(group.get_assigned_member(1), Some(10));
    assert_eq!(group.get_assigned_member(2), Some(20));
    assert_eq!(group.get_assigned_member(3), Some(10));
    assert_eq!(group.get_assigned_member(0), None);
    assert_eq!(group.get_assigned_member(4), None);
    assert_eq!(group.get_assigned_partitions(10), vec![1, 3]);
    assert_eq!(group.get_assigned_partitions(20), vec![2]);
    assert_eq!(group.get_assigned_partitions(30), Vec::<u32>::new());
    assert!(group.leave(20));
    assert!(!group.leave(20));
    assert_eq!(group.get_assigned_member(1), Some(10));
    assert_eq!(group.get_assigned_member(2), Some(10));
    assert_eq!(group.get_assigned_member(3), Some(10));
    assert_eq!(group.get_assigned_partitions(10), vec![1, 2, 3]);
    assert!(group.leave(10));
    assert_eq!(group.get_assigned_member(2), None);
}

#[test]
fn group_assignment_does_not_depend_on_the_order_of_joining() {
    let mut first = ConsumerGroup::new(1, 7);
    let mut second = ConsumerGroup::new(2, 7);
    for member in [5, 1, 9, 3] {
        first.join(member);
    }
    for member in [3, 9, 8, 1, 5] {
        second.join(member);
    }
    second.leave(8);
    for partition_id in 0..=8 {
        assert_eq!(first.get_assigned_member(partition_id), second.get_assigned_member(partition_id));
    }
    let assigned: Vec<Option<u32>> = (1..=7).map(|id| first.get_assigned_member(id)).collect();
    assert_eq!(
        assigned,
        vec![Some(1), Some(3), Some(5), Some(9), Some(1), Some(3), Some(5)]
    );
}

#[test]
fn group_offsets() {
    let mut group = ConsumerGroup::new(1, 2);
    assert_eq!(group.get_committed_offset(1).unwrap_err(), IggyError::ConsumerOffsetNotFound);
    assert_eq!(group.get_committed_offset(3).unwrap_err(), IggyError::PartitionNotFound);
    assert_eq!(group.get_committed_offset(0).unwrap_err(), IggyError::PartitionNotFound);
    assert!(group.commit(2, 41).is_ok());
    assert_eq!(group.get_committed_offset(2).unwrap(), 41);
    assert_eq!(group.get_committed_offset(1).unwrap_err(), IggyError::ConsumerOffsetNotFound);
    assert_eq!(group.commit(3, 1).unwrap_err(), IggyError::PartitionNotFound);
    assert!(group.commit(2, 7).is_ok());
    assert_eq!(group.get_committed_offset(2).unwrap(), 7);
}

#[test]
fn group_poll_reads_behind_the_committed_offset() {
    let mut topic = Topic::new(1, "orders", 3, limits(1_000_000), None, None).unwrap();
    for partition_id in 1..=3u32 {
        topic.append_messages(&Partitioning::partition_id(partition_id), batch_of(5, 10), 1).unwrap();
    }
    let mut group = ConsumerGroup::new(1, 3);
    group.join(1);
    group.join(2);
    // without auto-commit the same messages come again
    let batches = topic.poll_group(&mut group, 1, 2, false).unwrap();
    assert_eq!(batches.len(), 2);
    assert_eq!(batches[0].partition_id, 1);
    assert_eq!(batches[1].partition_id, 3);
    let offsets: Vec<u64> = batches[0].messages.iter().map(|message| message.offset).collect();
    assert_eq!(offsets, vec![0, 1]);
    assert_eq!(group.get_committed_offset(1).unwrap_err(), IggyError::ConsumerOffsetNotFound);
    let batches = topic.poll_group(&mut group, 1, 2, true).unwrap();
    let offsets: Vec<u64> = batches[1].messages.iter().map(|message| message.offset).collect();
    assert_eq!(offsets, vec![0, 1]);
    assert_eq!(group.get_committed_offset(1).unwrap(), 1);
    assert_eq!(group.get_committed_offset(3).unwrap(), 1);
    assert_eq!(group.get_committed_offset(2).unwrap_err(), IggyError::ConsumerOffsetNotFound);
    let batches = topic.poll_group(&mut group, 1, 10, true).unwrap();
    let offsets: Vec<u64> = batches[0].messages.iter().map(|message| message.offset).collect();
    assert_eq!(offsets, vec![2, 3, 4]);
    assert_eq!(group.get_committed_offset(1).unwrap(), 4);
    // nothing is left, and nothing is committed anew
    let batches = topic.poll_group(&mut group, 1, 10, true).unwrap();
    assert_eq!(batches.len(), 2);
    assert!(batches[0].messages.is_empty());
    assert_eq!(batches[0].current_offset, 4);
    assert_eq!(group.get_committed_offset(1).unwrap(), 4);
    // the other member reads its own partition
    let batches = topic.poll_group(&mut group, 2, 10, true).unwrap();
    assert_eq!(batches.len(), 1);
    assert_eq!(batches[0].partition_id, 2);
    assert_eq!(batches[0].messages.len(), 5);
    assert_eq!(group.get_committed_offset(2).unwrap(), 4);
    // a stranger gets nothing
    assert!(topic.poll_group(&mut group, 9, 10, true).unwrap().is_empty());
}

#[test]
fn segments_roll_at_the_message_limit() {
    let mut partition = Partition::new(1, SegmentLimits { size: u64::MAX, max_messages: 3 });
    partition.append(batch_of(2, 1), 1).unwrap();
    assert_eq!(partition.get_segments().len(), 1);
    // a batch goes into the active segment whole, which is then closed
    partition.append(batch_of(2, 1), 2).unwrap();
    partition.append(batch_of(3, 1), 3).unwrap();
    partition.append(batch_of(1, 1), 4).unwrap();
    let segments: Vec<(u64, u64, bool)> = partition
        .get_segments()
        .iter()
        .map(|segment| (segment.base_offset, segment.message_count, segment.is_closed))
        .collect();
    assert_eq!(segments, vec![(0, 4, true), (4, 3, true), (7, 1, false)]);
    // an empty batch closes nothing
    let mut partition = Partition::new(1, SegmentLimits { size: 0, max_messages: 0 });
    partition.append(Vec::new(), 1).unwrap();
    assert_eq!(partition.get_segments().len(), 1);
    partition.append(batch_of(1, 1), 1).unwrap();
    partition.append(Vec::new(), 1).unwrap();
    assert_eq!(partition.get_segments().len(), 2);
}

#[test]
fn a_log_that_was_written_out_holds_the_partition() {
    let mut partition = Partition::new(1, limits(4096));
    for index in 0..10u64 {
        let headers = vec![Header::new(b"n".to_vec(), HeaderKind::Uint64, index.to_le_bytes().to_vec()).unwrap()];
        let message = Message::new(Some(index as u128 + 1), Bytes::from(vec![index as u8; 1000]), Some(headers));
        partition.append(vec![message], 100 + index).unwrap();
    }
    let mut last_offset = None;
    for segment in partition.get_segments().clone() {
        let mut held = Vec::new();
        while (held.len() as u64) < segment.message_count {
            held.extend(partition.poll(segment.base_offset + held.len() as u64, 1));
        }
        let mut buffer = bytes::BytesMut::new();
        iggy_engine::segment_log::write_log(&held, &mut buffer);
        assert_eq!(buffer.len() as u64, segment.size_bytes);
        // a crash cuts the next record short
        buffer.extend_from_slice(&[77, 0, 0, 0, 1, 2, 3]);
        let (read, valid) = iggy_engine::segment_log::open_log(&buffer.freeze());
        assert_eq!(valid as u64, segment.size_bytes);
        assert_eq!(read.len() as u64, segment.message_count);
        for (index, (before, after)) in held.iter().zip(read.iter()).enumerate() {
            assert_eq!(after.offset, segment.base_offset + index as u64);
            assert_eq!(after.id, before.id);
            assert_eq!(after.timestamp, before.timestamp);
            assert_eq!(after.checksum, before.checksum);
            assert_eq!(after.headers, before.headers);
            assert_eq!(after.payload, before.payload);
            last_offset = Some(after.offset);
        }
    }
    assert_eq!(last_offset, Some(partition.current_offset()));
}

fn stored_segments(partition: &Partition) -> Vec<StoredSegment> {
    (0..partition.get_segments().len())
        .map(|index| {
            let mut buffer = bytes::BytesMut::new();
            partition.write_segment(index, &mut buffer);
            StoredSegment { base_offset: partition.get_segments()[index].base_offset, log: buffer.freeze() }
        })
        .collect()
}

#[test]
fn a_partition_comes_back_from_its_stored_segments() {
    let mut partition = Partition::new(3, limits(4096));
    for index in 0..10u64 {
        let headers = vec![Header::new(b"n".to_vec(), HeaderKind::Uint64, index.to_le_bytes().to_vec()).unwrap()];
        let message = Message::new(Some(index as u128 + 1), Bytes::from(vec![index as u8; 1000]), Some(headers));
        partition.append(vec![message], 100 + index).unwrap();
    }
    partition.apply_retention(200, None, Some(5000));
    let mut stored = stored_segments(&partition);
    assert_eq!(stored.len(), partition.get_segments().len());
    // a crash cuts the record behind the last whole one short
    let last = stored.len() - 1;
    let mut torn = stored[last].log.to_vec();
    torn.extend_from_slice(&[50, 4, 0, 0, 9, 9, 9, 9, 9]);
    stored[last].log = Bytes::from(torn);

    let restored = Partition::restore(3, limits(4096), &stored).unwrap();
    assert_eq!(restored.partition_id(), 3);
    assert_eq!(restored.current_offset(), partition.current_offset());
    assert_eq!(restored.message_count(), partition.message_count());
    assert_eq!(restored.get_segments(), partition.get_segments());
    let first = partition.get_segments()[0].base_offset;
    for offset in first..=partition.current_offset() {
        let before = &partition.poll(offset, 1)[0];
        let after = &restored.poll(offset, 1)[0];
        assert_eq!(after.offset, offset);
        assert_eq!(after.id, before.id);
        assert_eq!(after.timestamp, before.timestamp);
        assert_eq!(after.checksum, before.checksum);
        assert_eq!(after.message_state, before.message_state);
        assert_eq!(after.headers, before.headers);
        assert_eq!(after.payload, before.payload);
    }
    assert_eq!(stored_segments(&restored)[0].log, stored[0].log);
    // the restored partition goes on where the stored one stopped
    let mut restored = restored;
    assert_eq!(
        restored.append(batch_of(1, 1), 500).unwrap(),
        AssignedRange { first: partition.current_offset() + 1, count: 1 }
    );
}

#[test]
fn broken_segments_are_not_restored() {
    let mut partition = Partition::new(1, limits(4096));
    for index in 0..10u64 {
        partition.append(batch_of(1, 1000), 100 + index).unwrap();
    }
    let stored = stored_segments(&partition);
    assert!(Partition::restore(1, limits(4096), &stored).is_ok());
    assert_eq!(Partition::restore(1, limits(4096), &Vec::new()).unwrap_err(), IggyError::CannotReadMessage);
    // a gap between two segments
    let mut gap = stored_segments(&partition);
    gap.remove(1);
    assert_eq!(Partition::restore(1, limits(4096), &gap).unwrap_err(), IggyError::CannotReadMessage);
    // a base offset that is not the offset of the first record
    let mut shifted = stored_segments(&partition);
    shifted[0].base_offset = 1;
    assert_eq!(Partition::restore(1, limits(4096), &shifted).unwrap_err(), IggyError::CannotReadMessage);
    // a closed segment that lost its records
    let mut emptied = stored_segments(&partition);
    emptied[0].log = Bytes::new();
    assert_eq!(Partition::restore(1, limits(4096), &emptied).unwrap_err(), IggyError::CannotReadMessage);
    // timestamps that run backwards
    let mut first = Partition::new(1, limits(4096));
    first.append(batch_of(5, 1000), 900).unwrap();
    let mut second = Partition::new(1, limits(4096));
    second.append(batch_of(5, 1000), 800).unwrap();
    second.append(batch_of(1, 1000), 800).unwrap();
    let mut backwards = stored_segments(&first);
    let later = stored_segments(&second);
    backwards[1] = StoredSegment { base_offset: later[1].base_offset, log: later[1].log.clone() };
    assert_eq!(Partition::restore(1, limits(4096), &backwards).unwrap_err(), IggyError::CannotReadMessage);
    // an empty active segment is fine
    let just_rolled = stored_segments(&first);
    assert_eq!(just_rolled.len(), 2);
    assert_eq!(just_rolled[1].log.len(), 0);
    let restored = Partition::restore(1, limits(4096), &just_rolled).unwrap();
    assert_eq!(restored.current_offset(), 4);
    assert_eq!(restored.get_segments(), first.get_segments());
}

#[test]
fn offsets_that_run_out_refuse_the_batch() {
    let last = iggy_engine::message::RetainedMessage::new(u64::MAX - 1, 5, Message::from_text("x"));
    let mut buffer = bytes::BytesMut::new();
    iggy_engine::segment_log::write_log(&vec![last], &mut buffer);
    let stored = vec![StoredSegment { base_offset: u64::MAX - 1, log: buffer.freeze() }];
    let mut partition = Partition::restore(1, limits(4096), &stored).unwrap();
    assert_eq!(partition.current_offset(), u64::MAX - 1);
    assert_eq!(partition.append(batch_of(1, 1), 6).unwrap_err(), IggyError::CannotAppendMessages);
    assert_eq!(partition.current_offset(), u64::MAX - 1);
    assert_eq!(partition.message_count(), 1);
    assert_eq!(partition.append(Vec::new(), 6).unwrap(), AssignedRange { first: u64::MAX, count: 0 });
    // an oversized message is refused before the offsets are looked at
    assert_eq!(
        partition.append(vec![payload_of(10_000_001)], 6).unwrap_err(),
        IggyError::InvalidMessagePayloadLength
    );
}
