use bytes::Bytes;
use iggy_engine::cache::MessageCache;
use iggy_engine::error::IggyError;
use iggy_engine::flush::{AppendPlan, FlushPolicy, FlushState};
use iggy_engine::message::{Message, RetainedMessage};

fn cached(offset: u64, size: usize) -> RetainedMessage {
    RetainedMessage::new(offset, 1, Message::new(Some(1), Bytes::from(vec![0; size]), None))
}

#[test]
fn cache_keeps_the_newest_messages_that_fit() {
    // each message takes 45 + 55 = 100 bytes
    let mut cache = MessageCache::new(300);
    assert_eq!(cache.offsets(), None);
    assert!(cache.get(0).is_none());
    for offset in 10..13 {
        assert!(cache.push(cached(offset, 55)).is_ok());
    }
    assert_eq!(cache.offsets(), Some((10, 12)));
    assert!(cache.push(cached(13, 55)).is_ok());
    assert_eq!(cache.offsets(), Some((11, 13)));
    assert!(cache.get(10).is_none());
    assert_eq!(cache.get(11).unwrap().offset, 11);
    assert_eq!(cache.get(13).unwrap().offset, 13);
    assert!(cache.get(14).is_none());
    // a message of 250 bytes leaves room for none of the others
    assert!(cache.push(cached(14, 205)).is_ok());
    assert_eq!(cache.offsets(), Some((14, 14)));
    assert!(cache.push(cached(15, 5)).is_ok());
    assert_eq!(cache.offsets(), Some((14, 15)));
    assert!(cache.push(cached(16, 6)).is_ok());
    assert_eq!(cache.offsets(), Some((15, 16)));
}

#[test]
fn cache_starts_anew_after_a_gap() {
    let mut cache = MessageCache::new(1000);
    assert!(cache.push(cached(0, 5)).is_ok());
    assert!(cache.push(cached(1, 5)).is_ok());
    assert!(cache.push(cached(3, 5)).is_ok());
    assert_eq!(cache.offsets(), Some((3, 3)));
    assert!(cache.get(1).is_none());
    assert!(cache.push(cached(3, 5)).is_ok());
    assert_eq!(cache.offsets(), Some((3, 3)));
}

#[test]
fn cache_refuses_what_is_larger_than_itself() {
    let mut cache = MessageCache::new(100);
    assert!(cache.push(cached(0, 55)).is_ok());
    assert_eq!(cache.push(cached(1, 56)).unwrap_err(), IggyError::CacheFull);
    assert_eq!(cache.offsets(), None);
    assert!(cache.push(cached(2, 55)).is_ok());
    assert_eq!(cache.offsets(), Some((2, 2)));
    let mut none = MessageCache::new(0);
    assert_eq!(none.push(cached(0, 0)).unwrap_err(), IggyError::CacheFull);
}

#[test]
fn appends_sync_first_when_the_buffer_would_overflow() {
    let policy = FlushPolicy { enforce_fsync: false, unsaved_buffer_bytes: 1000, flush_interval_ms: 500 };
    let mut state = FlushState::new(10);
    assert_eq!(state, FlushState { unsaved_bytes: 0, last_sync_ms: 10 });
    assert_eq!(state.plan_append(&policy, 600, 20), AppendPlan { sync_first: false, fsync: false });
    assert_eq!(state, FlushState { unsaved_bytes: 600, last_sync_ms: 10 });
    assert_eq!(state.plan_append(&policy, 400, 30), AppendPlan { sync_first: false, fsync: false });
    assert_eq!(state, FlushState { unsaved_bytes: 1000, last_sync_ms: 10 });
    assert_eq!(state.plan_append(&policy, 1, 40), AppendPlan { sync_first: true, fsync: false });
    assert_eq!(state, FlushState { unsaved_bytes: 1, last_sync_ms: 40 });
    assert_eq!(state.plan_append(&policy, 5000, 50), AppendPlan { sync_first: true, fsync: false });
    assert_eq!(state, FlushState { unsaved_bytes: 5000, last_sync_ms: 50 });
    assert_eq!(state.plan_append(&policy, u64::MAX, 60), AppendPlan { sync_first: true, fsync: false });
    assert_eq!(state.unsaved_bytes, u64::MAX);
    let enforced = FlushPolicy { enforce_fsync: true, unsaved_buffer_bytes: 1000, flush_interval_ms: 500 };
    assert_eq!(state.plan_append(&enforced, 5, 70), AppendPlan { sync_first: true, fsync: true });
    assert_eq!(state, FlushState { unsaved_bytes: 0, last_sync_ms: 70 });
    assert_eq!(state.plan_append(&enforced, 5, 80), AppendPlan { sync_first: false, fsync: true });
    assert_eq!(state, FlushState { unsaved_bytes: 0, last_sync_ms: 80 });
}

#[test]
fn the_timer_syncs_every_interval() {
    let policy = FlushPolicy { enforce_fsync: false, unsaved_buffer_bytes: 1000, flush_interval_ms: 500 };
    let mut state = FlushState::new(100);
    state.plan_append(&policy, 10, 150);
    assert!(!state.tick(&policy, 599));
    assert_eq!(state, FlushState { unsaved_bytes: 10, last_sync_ms: 100 });
    assert!(state.tick(&policy, 600));
    assert_eq!(state, FlushState { unsaved_bytes: 0, last_sync_ms: 600 });
    assert!(!state.tick(&policy, 50));
    state.plan_append(&policy, 10, 700);
    state.flushed(false, 800);
    assert_eq!(state, FlushState { unsaved_bytes: 10, last_sync_ms: 600 });
    state.flushed(true, 800);
    assert_eq!(state, FlushState { unsaved_bytes: 0, last_sync_ms: 800 });
    let mut late = FlushState::new(u64::MAX);
    assert!(!late.tick(&policy, u64::MAX));
}
