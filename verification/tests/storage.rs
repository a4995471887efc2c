use bytes::{Bytes, BytesMut};
use iggy_engine::error::IggyError;
use iggy_engine::headers::{Header, HeaderKind};
use iggy_engine::index::{
    decode_index, decode_time_index, encode_index, encode_time_index, entry_is_due, lookup,
    lookup_before, verify_index, IndexEntry, TimeIndexEntry, DEFAULT_INDEX_INTERVAL,
    INDEX_ENTRY_SIZE, TIME_INDEX_ENTRY_SIZE,
};
use iggy_engine::message::{Message, RetainedMessage};
use iggy_engine::segment_log::{open_log, read_messages, read_record, write_log};

fn stored(offset: u64, payload: &'static [u8]) -> RetainedMessage {
    RetainedMessage::new(offset, 1000 + offset, Message::new(Some(offset as u128 + 1), Bytes::from_static(payload), None))
}

fn log_of(messages: &Vec<RetainedMessage>) -> Bytes {
    let mut buffer = BytesMut::new();
    write_log(messages, &mut buffer);
    buffer.freeze()
}

fn offsets(messages: &Vec<RetainedMessage>) -> Vec<u64> {
    messages.iter().map(|message| message.offset).collect()
}

#[test]
fn a_log_reads_back_as_it_was_written() {
    let headers = vec![Header::new(b"k".to_vec(), HeaderKind::String, b"v".to_vec()).unwrap()];
    let with_headers =
        RetainedMessage::new(2, 77, Message::new(Some(9), Bytes::from_static(b"third"), Some(headers)));
    let messages = vec![stored(0, b"first"), stored(1, b""), with_headers];
    let log = log_of(&messages);
    assert_eq!(log.len(), 45 + 5 + 45 + 45 + 8 + 5);
    let (read, valid) = open_log(&log);
    assert_eq!(valid, log.len());
    assert_eq!(read.len(), 3);
    for (written, read) in messages.iter().zip(read.iter()) {
        assert_eq!(read.id, written.id);
        assert_eq!(read.offset, written.offset);
        assert_eq!(read.timestamp, written.timestamp);
        assert_eq!(read.checksum, written.checksum);
        assert_eq!(read.message_state, written.message_state);
        assert_eq!(read.headers, written.headers);
        assert_eq!(read.payload, written.payload);
    }
    assert_eq!(log_of(&read), log);
}

#[test]
fn an_empty_log_holds_nothing() {
    let (read, valid) = open_log(&Bytes::new());
    assert!(read.is_empty());
    assert_eq!(valid, 0);
    assert_eq!(log_of(&Vec::new()).len(), 0);
}

#[test]
fn a_torn_tail_is_cut_off() {
    let messages = vec![stored(0, b"first"), stored(1, b"second")];
    let whole = log_of(&messages);
    for cut in 1..(45 + 6) {
        let torn = whole.slice(..whole.len() - cut);
        let (read, valid) = open_log(&torn);
        assert_eq!(offsets(&read), vec![0]);
        assert_eq!(valid, 50);
    }
    // a length prefix that announces more than follows
    let mut bytes = whole.to_vec();
    bytes.extend_from_slice(&[200, 0, 0, 0, 1, 2, 3]);
    let (read, valid) = open_log(&Bytes::from(bytes));
    assert_eq!(offsets(&read), vec![0, 1]);
    assert_eq!(valid, whole.len());
    // a record with an unknown state
    let mut bytes = whole.to_vec();
    bytes[50 + 4 + 8] = 3;
    let (read, valid) = open_log(&Bytes::from(bytes));
    assert_eq!(offsets(&read), vec![0]);
    assert_eq!(valid, 50);
}

#[test]
fn reads_are_limited_by_count_and_bytes() {
    let messages: Vec<RetainedMessage> = (0..6).map(|offset| stored(offset, b"0123456789")).collect();
    let log = log_of(&messages);
    assert_eq!(log.len(), 6 * 55);
    assert_eq!(offsets(&read_messages(&log, 0, 100, u64::MAX)), vec![0, 1, 2, 3, 4, 5]);
    assert_eq!(offsets(&read_messages(&log, 0, 4, u64::MAX)), vec![0, 1, 2, 3]);
    assert_eq!(offsets(&read_messages(&log, 110, 3, u64::MAX)), vec![2, 3, 4]);
    assert_eq!(offsets(&read_messages(&log, 110, 100, 110)), vec![2, 3]);
    assert_eq!(offsets(&read_messages(&log, 110, 100, 109)), vec![2]);
    assert_eq!(offsets(&read_messages(&log, 110, 100, 54)), Vec::<u64>::new());
    assert_eq!(offsets(&read_messages(&log, 0, 0, u64::MAX)), Vec::<u64>::new());
    assert_eq!(offsets(&read_messages(&log, 330, 5, u64::MAX)), Vec::<u64>::new());
    // a position that is no record boundary finds no record
    assert_eq!(offsets(&read_messages(&log, 3, 5, u64::MAX)), Vec::<u64>::new());
    let (message, next) = read_record(&log, 55).unwrap();
    assert_eq!((message.offset, next), (1, 110));
    assert!(read_record(&log, 330).is_none());
    assert!(read_record(&log, 329).is_none());
}

#[test]
fn index_files_hold_fixed_width_entries() {
    assert_eq!(DEFAULT_INDEX_INTERVAL, 4096);
    assert_eq!(INDEX_ENTRY_SIZE, 8);
    assert_eq!(TIME_INDEX_ENTRY_SIZE, 12);
    let entries = vec![
        IndexEntry { relative_offset: 0, position: 0 },
        IndexEntry { relative_offset: 0x0102, position: 0x0A0B_0C0D },
    ];
    let mut buffer = BytesMut::new();
    encode_index(&entries, &mut buffer);
    assert_eq!(&buffer[..], &[0, 0, 0, 0, 0, 0, 0, 0, 2, 1, 0, 0, 0x0D, 0x0C, 0x0B, 0x0A]);
    assert_eq!(decode_index(&buffer).unwrap(), entries);
    let times = vec![
        TimeIndexEntry { relative_offset: 1, timestamp: 5 },
        TimeIndexEntry { relative_offset: 2, timestamp: 5 },
        TimeIndexEntry { relative_offset: 9, timestamp: 0x0102_0304_0506_0708 },
    ];
    let mut buffer = BytesMut::new();
    encode_time_index(&times, &mut buffer);
    assert_eq!(buffer.len(), 36);
    assert_eq!(&buffer[24..], &[9, 0, 0, 0, 8, 7, 6, 5, 4, 3, 2, 1]);
    assert_eq!(decode_time_index(&buffer).unwrap(), times);
    assert!(decode_index(&[]).unwrap().is_empty());
    assert!(decode_time_index(&[]).unwrap().is_empty());
}

#[test]
fn broken_index_files_are_rejected() {
    assert_eq!(decode_index(&[0; 7]).unwrap_err(), IggyError::InvalidNumberEncoding);
    assert_eq!(decode_index(&[0; 12]).unwrap_err(), IggyError::InvalidNumberEncoding);
    assert_eq!(decode_time_index(&[0; 8]).unwrap_err(), IggyError::InvalidNumberEncoding);
    // the same offset twice
    assert_eq!(decode_index(&[0; 16]).unwrap_err(), IggyError::CorruptedIndex);
    assert_eq!(decode_time_index(&[0; 24]).unwrap_err(), IggyError::CorruptedIndex);
    // positions that do not ascend
    let mut buffer = BytesMut::new();
    encode_index(
        &vec![IndexEntry { relative_offset: 1, position: 9 }, IndexEntry { relative_offset: 2, position: 9 }],
        &mut buffer,
    );
    assert_eq!(decode_index(&buffer).unwrap_err(), IggyError::CorruptedIndex);
    // timestamps that descend
    let mut buffer = BytesMut::new();
    encode_time_index(
        &vec![
            TimeIndexEntry { relative_offset: 1, timestamp: 9 },
            TimeIndexEntry { relative_offset: 2, timestamp: 8 },
        ],
        &mut buffer,
    );
    assert_eq!(decode_time_index(&buffer).unwrap_err(), IggyError::CorruptedIndex);
}

#[test]
fn lookups_find_the_last_entry_at_or_before_the_target() {
    let entries: Vec<IndexEntry> =
        [0u32, 10, 20, 30, 40].iter().map(|offset| IndexEntry { relative_offset: *offset, position: offset * 100 }).collect();
    assert_eq!(lookup(&entries, 0), Some(0));
    assert_eq!(lookup(&entries, 9), Some(0));
    assert_eq!(lookup(&entries, 10), Some(1));
    assert_eq!(lookup(&entries, 39), Some(3));
    assert_eq!(lookup(&entries, 40), Some(4));
    assert_eq!(lookup(&entries, u32::MAX), Some(4));
    assert_eq!(lookup(&entries[1..].to_vec(), 9), None);
    assert_eq!(lookup(&Vec::new(), 9), None);
    let times: Vec<TimeIndexEntry> = [(0u32, 100u64), (10, 200), (20, 200), (30, 300)]
        .iter()
        .map(|(offset, timestamp)| TimeIndexEntry { relative_offset: *offset, timestamp: *timestamp })
        .collect();
    assert_eq!(lookup_before(&times, 100), None);
    assert_eq!(lookup_before(&times, 101), Some(0));
    assert_eq!(lookup_before(&times, 200), Some(0));
    assert_eq!(lookup_before(&times, 201), Some(2));
    assert_eq!(lookup_before(&times, 300), Some(2));
    assert_eq!(lookup_before(&times, 301), Some(3));
    assert_eq!(lookup_before(&Vec::new(), 301), None);
}

#[test]
fn an_index_must_agree_with_its_log() {
    let messages: Vec<RetainedMessage> = (100..106).map(|offset| stored(offset, b"0123456789")).collect();
    let log = log_of(&messages);
    let good = vec![
        IndexEntry { relative_offset: 0, position: 0 },
        IndexEntry { relative_offset: 2, position: 110 },
        IndexEntry { relative_offset: 5, position: 275 },
    ];
    assert!(verify_index(&good, &log, 100).is_ok());
    assert!(verify_index(&Vec::new(), &log, 100).is_ok());
    // another base offset
    assert_eq!(verify_index(&good, &log, 99).unwrap_err(), IggyError::CorruptedIndex);
    // the position of another record
    let wrong = vec![IndexEntry { relative_offset: 2, position: 55 }];
    assert_eq!(verify_index(&wrong, &log, 100).unwrap_err(), IggyError::CorruptedIndex);
    // no record boundary
    let wrong = vec![IndexEntry { relative_offset: 0, position: 0 }, IndexEntry { relative_offset: 1, position: 56 }];
    assert_eq!(verify_index(&wrong, &log, 100).unwrap_err(), IggyError::CorruptedIndex);
    // behind the log
    let wrong = vec![IndexEntry { relative_offset: 6, position: 330 }];
    assert_eq!(verify_index(&wrong, &log, 100).unwrap_err(), IggyError::CorruptedIndex);
    let wrong = vec![IndexEntry { relative_offset: 6, position: 331 }];
    assert_eq!(verify_index(&wrong, &log, 100).unwrap_err(), IggyError::CorruptedIndex);
}

#[test]
fn entries_are_due_every_interval() {
    assert!(entry_is_due(None, 0, 4096));
    assert!(entry_is_due(None, 17, 4096));
    assert!(!entry_is_due(Some(0), 4095, 4096));
    assert!(entry_is_due(Some(0), 4096, 4096));
    assert!(entry_is_due(Some(100), 4196, 4096));
    assert!(!entry_is_due(Some(100), 4195, 4096));
    assert!(!entry_is_due(Some(u32::MAX), u32::MAX, 1));
    assert!(entry_is_due(Some(5), 5, 0));
}
