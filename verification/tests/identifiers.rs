use iggy_engine::error::{ErrorKind, IggyError};
use iggy_engine::identifier::Identifier;
use iggy_engine::partitioning::{Partitioning, PartitioningKind};

#[test]
fn digits_are_a_numeric_id() {
    let id = Identifier::from_str_value("42").unwrap();
    assert_eq!(id.get_u32_value(), Some(42));
    assert!(id.get_name().is_none());
    let id = Identifier::from_str_value("4294967295").unwrap();
    assert_eq!(id.get_u32_value(), Some(u32::MAX));
    let id = Identifier::from_str_value("007").unwrap();
    assert_eq!(id.get_u32_value(), Some(7));
}

#[test]
fn anything_else_is_a_name() {
    let id = Identifier::from_str_value("orders").unwrap();
    assert_eq!(id.get_u32_value(), None);
    assert_eq!(id.get_name().unwrap().as_slice(), b"orders");
    // one more than 32 bits hold
    let id = Identifier::from_str_value("4294967296").unwrap();
    assert_eq!(id.get_name().unwrap().as_slice(), b"4294967296");
    let id = Identifier::from_str_value("99999999999999999999999").unwrap();
    assert_eq!(id.get_name().unwrap().as_slice(), b"99999999999999999999999");
    let id = Identifier::from_str_value("12a").unwrap();
    assert_eq!(id.get_name().unwrap().as_slice(), b"12a");
    let id = Identifier::from_str_value("+5").unwrap();
    assert_eq!(id.get_name().unwrap().as_slice(), b"+5");
    let id = Identifier::from_str_value(" 5").unwrap();
    assert_eq!(id.get_name().unwrap().as_slice(), b" 5");
}

#[test]
fn invalid_identifiers() {
    assert_eq!(Identifier::from_str_value("").unwrap_err(), IggyError::InvalidIdentifier);
    assert_eq!(Identifier::from_str_value("0").unwrap_err(), IggyError::InvalidIdentifier);
    assert_eq!(Identifier::from_str_value("000").unwrap_err(), IggyError::InvalidIdentifier);
    let long = "x".repeat(256);
    assert_eq!(Identifier::from_str_value(&long).unwrap_err(), IggyError::InvalidIdentifier);
    let longest = "x".repeat(255);
    assert_eq!(Identifier::from_str_value(&longest).unwrap().get_name().unwrap().len(), 255);
    assert_eq!(Identifier::numeric(0).unwrap_err(), IggyError::InvalidIdentifier);
    assert_eq!(Identifier::numeric(3).unwrap().get_u32_value(), Some(3));
    assert_eq!(Identifier::named("").unwrap_err(), IggyError::InvalidIdentifier);
    assert_eq!(Identifier::named("123").unwrap().get_name().unwrap().as_slice(), b"123");
}

#[test]
fn partitioning_constructors() {
    let balanced = Partitioning::balanced();
    assert_eq!(balanced.kind, PartitioningKind::Balanced);
    assert_eq!(balanced.length, 0);
    assert!(balanced.value.is_empty());
    assert!(balanced.validate().is_ok());
    let by_id = Partitioning::partition_id(0x0102_0304);
    assert_eq!(by_id.kind, PartitioningKind::PartitionId);
    assert_eq!(by_id.length, 4);
    assert_eq!(by_id.value, vec![4, 3, 2, 1]);
    assert_eq!(by_id.named_partition(), Some(0x0102_0304));
    assert!(by_id.validate().is_ok());
    let by_key = Partitioning::messages_key(b"customer-1".to_vec()).unwrap();
    assert_eq!(by_key.kind, PartitioningKind::MessagesKey);
    assert_eq!(by_key.length, 10);
    assert_eq!(by_key.value, b"customer-1".to_vec());
    assert_eq!(by_key.named_partition(), None);
    assert!(by_key.validate().is_ok());
    assert!(Partitioning::messages_key(vec![1; 255]).is_ok());
}

#[test]
fn invalid_partitioning() {
    assert_eq!(Partitioning::messages_key(Vec::new()).unwrap_err(), IggyError::InvalidPartitioning);
    assert_eq!(
        Partitioning::messages_key(vec![0; 256]).unwrap_err(),
        IggyError::InvalidPartitioning
    );
    let wrong_length = Partitioning { kind: PartitioningKind::MessagesKey, length: 3, value: vec![1, 2] };
    assert_eq!(wrong_length.validate().unwrap_err(), IggyError::InvalidPartitioning);
    let balanced_with_value = Partitioning { kind: PartitioningKind::Balanced, length: 1, value: vec![1] };
    assert_eq!(balanced_with_value.validate().unwrap_err(), IggyError::InvalidPartitioning);
    let short_id = Partitioning { kind: PartitioningKind::PartitionId, length: 2, value: vec![1, 0] };
    assert_eq!(short_id.validate().unwrap_err(), IggyError::InvalidPartitioning);
    assert_eq!(short_id.named_partition(), None);
    let long_key = Partitioning { kind: PartitioningKind::MessagesKey, length: 0, value: vec![0; 256] };
    assert_eq!(long_key.validate().unwrap_err(), IggyError::InvalidPartitioning);
}

#[test]
fn error_groups() {
    assert_eq!(IggyError::InvalidIdentifier.kind(), ErrorKind::Validation);
    assert_eq!(IggyError::InvalidMessagePayloadLength.kind(), ErrorKind::Validation);
    assert_eq!(IggyError::TooBigHeadersPayload.kind(), ErrorKind::Validation);
    assert_eq!(IggyError::InvalidOffset.kind(), ErrorKind::Validation);
    assert_eq!(IggyError::InvalidPartitioning.kind(), ErrorKind::Validation);
    assert_eq!(IggyError::InvalidHeaderKey.kind(), ErrorKind::Validation);
    assert_eq!(IggyError::InvalidHeaderValue.kind(), ErrorKind::Validation);
    assert_eq!(IggyError::StreamNotFound.kind(), ErrorKind::NotFound);
    assert_eq!(IggyError::TopicNotFound.kind(), ErrorKind::NotFound);
    assert_eq!(IggyError::PartitionNotFound.kind(), ErrorKind::NotFound);
    assert_eq!(IggyError::ConsumerOffsetNotFound.kind(), ErrorKind::NotFound);
    assert_eq!(IggyError::StreamAlreadyExists.kind(), ErrorKind::Conflict);
    assert_eq!(IggyError::TopicAlreadyExists.kind(), ErrorKind::Conflict);
    assert_eq!(IggyError::InvalidNumberEncoding.kind(), ErrorKind::Storage);
    assert_eq!(IggyError::CorruptedIndex.kind(), ErrorKind::Storage);
    assert_eq!(IggyError::CannotAppendMessages.kind(), ErrorKind::Storage);
    assert_eq!(IggyError::CannotReadMessage.kind(), ErrorKind::Storage);
    assert_eq!(IggyError::SegmentFull.kind(), ErrorKind::Resource);
    assert_eq!(IggyError::CacheFull.kind(), ErrorKind::Resource);
    assert_eq!(IggyError::Unauthenticated.kind(), ErrorKind::Authorization);
    assert_eq!(IggyError::Forbidden.kind(), ErrorKind::Authorization);
}
