//! When buffered messages are written out.
//!
//! Appended records first sit in a buffer of unsaved bytes. Every batch is
//! handed to the operating system as it is appended, with a durable sync
//! when the partition enforces one; a timer asks for a durable sync every
//! flush interval besides. An append that would take the unsaved bytes
//! past their limit waits for a durable sync first. The decisions are made
//! here; writing, syncing and waiting are the caller's part.

use vstd::prelude::*;

verus! {

/// How a partition writes its buffer out.
#[derive(Clone, Copy, Debug, PartialEq, Eq, Structural)]
pub struct FlushPolicy {
    /// Whether every append ends with a durable sync.
    pub enforce_fsync: bool,
    /// Most bytes that may await a durable sync.
    pub unsaved_buffer_bytes: u64,
    /// Milliseconds between two durable syncs asked for by the timer.
    pub flush_interval_ms: u32,
}

/// What an append has to do besides writing its batch.
#[derive(Clone, Copy, Debug, PartialEq, Eq, Structural)]
pub struct AppendPlan {
    /// Whether a durable sync must complete before the batch is written.
    pub sync_first: bool,
    /// Whether the write of the batch ends with a durable sync.
    pub fsync: bool,
}

/// The bytes of a partition that await a durable sync, and when the last
/// such sync was.
#[derive(Clone, Copy, Debug, PartialEq, Eq, Structural)]
pub struct FlushState {
    pub unsaved_bytes: u64,
    pub last_sync_ms: u64,
}

/// The plan of an append of `batch_bytes` bytes: sync first when the batch
/// would take the unsaved bytes past the limit, sync afterwards when the
/// policy enforces it.
pub open spec fn append_plan(state: FlushState, policy: FlushPolicy, batch_bytes: u64) -> AppendPlan {
    AppendPlan {
        sync_first: state.unsaved_bytes + batch_bytes > policy.unsaved_buffer_bytes,
        fsync: policy.enforce_fsync,
    }
}

/// The state after an append at `now_ms` that follows its plan.
pub open spec fn after_append(
    state: FlushState,
    policy: FlushPolicy,
    batch_bytes: u64,
    now_ms: u64,
) -> FlushState {
    let plan = append_plan(state, policy, batch_bytes);
    if plan.fsync {
        FlushState { unsaved_bytes: 0, last_sync_ms: now_ms }
    } else if plan.sync_first {
        FlushState { unsaved_bytes: batch_bytes, last_sync_ms: now_ms }
    } else {
        FlushState {
            unsaved_bytes: (state.unsaved_bytes + batch_bytes) as u64,
            last_sync_ms: state.last_sync_ms,
        }
    }
}

/// Whether the timer's durable sync is due at `now_ms`.
pub open spec fn sync_is_due(state: FlushState, policy: FlushPolicy, now_ms: u64) -> bool {
    now_ms >= state.last_sync_ms + policy.flush_interval_ms
}

impl FlushState {
    /// The state of a partition whose bytes are all synced at `now_ms`.
    pub fn new(now_ms: u64) -> (state: FlushState)
        ensures
            state == (FlushState { unsaved_bytes: 0, last_sync_ms: now_ms }),
    {
        FlushState { unsaved_bytes: 0, last_sync_ms: now_ms }
    }

    /// Plans the append of a batch at `now_ms` and accounts for it.
    pub fn plan_append(&mut self, policy: &FlushPolicy, batch_bytes: u64, now_ms: u64) -> (plan:
        AppendPlan)
        ensures
            plan == append_plan(*old(self), *policy, batch_bytes),
            *final(self) == after_append(*old(self), *policy, batch_bytes, now_ms),
            final(self).unsaved_bytes <= policy.unsaved_buffer_bytes || final(self).unsaved_bytes
                == batch_bytes,
    {
        let sync_first = batch_bytes > policy.unsaved_buffer_bytes || self.unsaved_bytes
            > policy.unsaved_buffer_bytes - batch_bytes;
        if policy.enforce_fsync {
            self.unsaved_bytes = 0;
            self.last_sync_ms = now_ms;
        } else if sync_first {
            self.unsaved_bytes = batch_bytes;
            self.last_sync_ms = now_ms;
        } else {
            self.unsaved_bytes = self.unsaved_bytes + batch_bytes;
        }
        AppendPlan { sync_first, fsync: policy.enforce_fsync }
    }

    /// Asks, on behalf of the timer, whether a durable sync is due at
    /// `now_ms`, and accounts for it if it is.
    pub fn tick(&mut self, policy: &FlushPolicy, now_ms: u64) -> (due: bool)
        ensures
            due == sync_is_due(*old(self), *policy, now_ms),
            *final(self) == if due {
                FlushState { unsaved_bytes: 0, last_sync_ms: now_ms }
            } else {
                *old(self)
            },
    {
        let due = now_ms as u128 >= self.last_sync_ms as u128 + policy.flush_interval_ms as u128;
        if due {
            self.unsaved_bytes = 0;
            self.last_sync_ms = now_ms;
        }
        due
    }

    /// Accounts for a flush that the caller asked for at `now_ms`: with a
    /// durable sync nothing is left unsaved.
    pub fn flushed(&mut self, fsync: bool, now_ms: u64)
        ensures
            *final(self) == if fsync {
                FlushState { unsaved_bytes: 0, last_sync_ms: now_ms }
            } else {
                *old(self)
            },
    {
        if fsync {
            self.unsaved_bytes = 0;
            self.last_sync_ms = now_ms;
        }
    }
}

/// The unsaved bytes stay within their limit: after any append that
/// follows its plan, they exceed the limit only if the batch alone does.
pub proof fn lemma_unsaved_is_bounded(
    state: FlushState,
    policy: FlushPolicy,
    batch_bytes: u64,
    now_ms: u64,
)
    ensures
        after_append(state, policy, batch_bytes, now_ms).unsaved_bytes
            <= policy.unsaved_buffer_bytes || (batch_bytes > policy.unsaved_buffer_bytes
            && after_append(state, policy, batch_bytes, now_ms).unsaved_bytes == batch_bytes),
{
}

} // verus!
