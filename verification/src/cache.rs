//! The cache of a partition's newest messages.
//!
//! Polls mostly read the tail of a partition. The cache keeps the messages
//! appended last, as many as fit its capacity in bytes, so that such polls
//! need not read the log. What it holds is always an unbroken range of
//! offsets that ends at the message cached last.

use crate::error::IggyError;
use crate::message::{MessageRecord, RetainedMessage};
use std::collections::VecDeque;
use vstd::prelude::*;

verus! {

/// Bytes that a record takes in the cache: as many as in the log.
pub open spec fn cached_size(record: MessageRecord) -> nat {
    4 + record.size()
}

/// Bytes that the records take together.
pub open spec fn total_size(records: Seq<MessageRecord>) -> nat
    decreases records.len(),
{
    if records.len() == 0 {
        0
    } else {
        total_size(records.drop_last()) + cached_size(records.last())
    }
}

/// The newest of `records` that fit `capacity` bytes: the oldest ones are
/// left out, one by one, until the rest fits.
pub open spec fn newest_that_fit(records: Seq<MessageRecord>, capacity: u64) -> Seq<MessageRecord>
    decreases records.len(),
{
    if total_size(records) <= capacity {
        records
    } else {
        newest_that_fit(records.skip(1), capacity)
    }
}

/// Whether the records carry consecutive offsets.
pub open spec fn is_unbroken(records: Seq<MessageRecord>) -> bool {
    forall|i: int| 0 <= i < records.len() ==> (#[trigger] records[i]).offset == records[0].offset + i
}

/// Leaving out the oldest record takes its bytes off the total.
proof fn lemma_total_size_skip(records: Seq<MessageRecord>)
    requires
        records.len() > 0,
    ensures
        total_size(records) == cached_size(records[0]) + total_size(records.skip(1)),
    decreases records.len(),
{
    let rest = records.skip(1);
    if records.len() == 1 {
        assert(records.drop_last() =~= Seq::<MessageRecord>::empty());
        assert(rest =~= Seq::<MessageRecord>::empty());
        assert(total_size(records.drop_last()) == 0);
        assert(total_size(rest) == 0);
        assert(records.last() == records[0]);
    } else {
        lemma_total_size_skip(records.drop_last());
        assert(records.drop_last().skip(1) =~= rest.drop_last());
        assert(rest.last() == records.last());
        assert(records.drop_last()[0] == records[0]);
        assert(total_size(rest) == total_size(rest.drop_last()) + cached_size(rest.last()));
    }
}

/// A cache of the newest messages of one partition.
#[derive(Debug)]
pub struct MessageCache {
    capacity_bytes: u64,
    size_bytes: u64,
    messages: VecDeque<RetainedMessage>,
}

impl MessageCache {
    /// The most bytes that the cache holds.
    pub closed spec fn capacity(&self) -> u64 {
        self.capacity_bytes
    }

    /// The cached messages, oldest first.
    pub closed spec fn cached(&self) -> Seq<MessageRecord> {
        self.messages@.map_values(|message: RetainedMessage| message@)
    }

    /// The invariant of a cache: what it holds is an unbroken range of
    /// offsets and fits its capacity.
    pub closed spec fn wf(&self) -> bool {
        &&& is_unbroken(self.cached())
        &&& self.size_bytes == total_size(self.cached())
        &&& self.size_bytes <= self.capacity_bytes
    }

    /// What the invariant says.
    pub proof fn lemma_invariant(&self)
        requires
            self.wf(),
        ensures
            is_unbroken(self.cached()),
            total_size(self.cached()) <= self.capacity(),
    {
    }

    /// An empty cache of the given capacity.
    pub fn new(capacity_bytes: u64) -> (cache: MessageCache)
        ensures
            cache.wf(),
            cache.capacity() == capacity_bytes,
            cache.cached() == Seq::<MessageRecord>::empty(),
    {
        let cache = MessageCache { capacity_bytes, size_bytes: 0, messages: VecDeque::new() };
        proof {
            assert(cache.cached() =~= Seq::<MessageRecord>::empty());
        }
        cache
    }

    /// What the cache holds after `record` was appended to the partition:
    /// the newest messages that fit, the new one last. A message that does
    /// not follow the one cached last starts the cache anew.
    pub open spec fn after_push(&self, record: MessageRecord) -> Seq<MessageRecord> {
        if self.cached().len() > 0 && self.cached().last().offset + 1 != record.offset {
            newest_that_fit(seq![record], self.capacity())
        } else {
            newest_that_fit(self.cached().push(record), self.capacity())
        }
    }

    /// Drops the oldest message.
    fn evict_oldest(&mut self)
        requires
            old(self).cached().len() > 0,
            old(self).size_bytes == total_size(old(self).cached()),
        ensures
            final(self).capacity_bytes == old(self).capacity_bytes,
            final(self).cached() == old(self).cached().skip(1),
            final(self).size_bytes == total_size(final(self).cached()),
    {
        let ghost before = self.cached();
        proof {
            lemma_total_size_skip(before);
        }
        let oldest = self.messages.pop_front();
        proof {
            assert(before[0] == oldest.unwrap()@);
            assert(self.cached() =~= before.skip(1));
        }
        match oldest {
            Some(dropped) => {
                let size = record_size(&dropped);
                self.size_bytes = (self.size_bytes as u128 - size) as u64;
            },
            None => {},
        }
    }

    /// Caches a message that was appended to the partition, making room by
    /// dropping the oldest messages. A message that is larger than the
    /// whole cache is not cached, and nothing else is left either.
    pub fn push(&mut self, message: RetainedMessage) -> (result: Result<(), IggyError>)
        requires
            old(self).wf(),
        ensures
            final(self).wf(),
            final(self).capacity() == old(self).capacity(),
            final(self).cached() == old(self).after_push(message@),
            match result {
                Ok(()) => {
                    &&& cached_size(message@) <= old(self).capacity()
                    &&& final(self).cached().len() > 0
                    &&& final(self).cached().last() == message@
                },
                Err(error) => cached_size(message@) > old(self).capacity() && error
                    == IggyError::CacheFull && final(self).cached().len() == 0,
            },
    {
        let size = record_size(&message);
        let count = self.messages.len();
        proof {
            if count > 0 {
                assert(self.cached().last() == self.messages@[count - 1]@);
            }
        }
        if count > 0 && self.messages[count - 1].offset as u128 + 1 != message.offset as u128 {
            self.messages.clear();
            self.size_bytes = 0;
            proof {
                assert(self.cached() =~= Seq::<MessageRecord>::empty());
                assert(seq![message@] =~= self.cached().push(message@));
            }
        }
        let ghost wanted = old(self).after_push(message@);
        while self.size_bytes as u128 + size > self.capacity_bytes as u128
            && self.messages.len() > 0
            invariant
                self.capacity_bytes == old(self).capacity_bytes,
                size == cached_size(message@),
                size < 0x1_0000_0000_0000_0000_0000,
                is_unbroken(self.cached()),
                self.size_bytes == total_size(self.cached()),
                self.cached().len() == self.messages@.len(),
                self.cached().len() > 0 ==> self.cached().last().offset + 1 == message@.offset,
                wanted == newest_that_fit(self.cached().push(message@), self.capacity_bytes),
            decreases self.messages@.len(),
        {
            let ghost before = self.cached();
            proof {
                lemma_newest_step(before, message@, self.capacity_bytes);
                lemma_unbroken_skip(before);
            }
            self.evict_oldest();
        }
        proof {
            lemma_newest_done(self.cached(), message@, self.capacity_bytes);
        }
        if self.size_bytes as u128 + size > self.capacity_bytes as u128 {
            return Err(IggyError::CacheFull);
        }
        proof {
            let rest = self.cached();
            assert(self.messages@.push(message).map_values(|message: RetainedMessage| message@)
                =~= rest.push(message@));
            lemma_unbroken_push(rest, message@);
        }
        self.messages.push_back(message);
        self.size_bytes = (self.size_bytes as u128 + size) as u64;
        Ok(())
    }

    /// Returns the cached message with offset `offset`, sharing its bytes.
    pub fn get(&self, offset: u64) -> (found: Option<RetainedMessage>)
        requires
            self.wf(),
        ensures
            match found {
                Some(message) => message@.offset == offset && self.cached().contains(message@),
                None => forall|i: int|
                    0 <= i < self.cached().len() ==> (#[trigger] self.cached()[i]).offset
                        != offset,
            },
    {
        let count = self.messages.len();
        if count == 0 {
            return None;
        }
        let first = self.messages[0].offset;
        proof {
            assert(self.cached()[0] == self.messages@[0]@);
        }
        if offset < first || offset - first >= count as u64 {
            return None;
        }
        let index = (offset - first) as usize;
        let message = self.messages[index].share();
        proof {
            assert(self.cached()[index as int] == self.messages@[index as int]@);
        }
        Some(message)
    }

    /// Returns the offsets that the cache holds, as the first and the last
    /// of them; none while the cache is empty.
    pub fn offsets(&self) -> (range: Option<(u64, u64)>)
        requires
            self.wf(),
        ensures
            match range {
                Some((first, last)) => self.cached().len() > 0 && first
                    == self.cached()[0].offset && last == self.cached().last().offset
                    && last - first + 1 == self.cached().len(),
                None => self.cached().len() == 0,
            },
    {
        let count = self.messages.len();
        if count == 0 {
            return None;
        }
        proof {
            assert(self.cached()[0] == self.messages@[0]@);
            assert(self.cached().last() == self.messages@[count - 1]@);
            assert(self.cached()[count - 1].offset == self.cached()[0].offset + (count - 1));
        }
        Some((self.messages[0].offset, self.messages[count - 1].offset))
    }
}

/// Returns the bytes that a message takes in the cache.
fn record_size(message: &RetainedMessage) -> (size: u128)
    ensures
        size == cached_size(message@),
        size < 0x1_0000_0000_0000_0000_0000,
{
    let headers: u128 = match &message.headers {
        Some(headers) => crate::buffer::as_slice(headers).len() as u128,
        None => 0,
    };
    let payload: u128 = crate::buffer::as_slice(&message.payload).len() as u128;
    45 + headers + payload
}

/// While the cached records and the new one do not fit together, what is
/// wanted does not hold the oldest cached record.
proof fn lemma_newest_step(records: Seq<MessageRecord>, record: MessageRecord, capacity: u64)
    requires
        records.len() > 0,
        total_size(records) + cached_size(record) > capacity,
    ensures
        newest_that_fit(records.push(record), capacity) == newest_that_fit(
            records.skip(1).push(record),
            capacity,
        ),
{
    let longer = records.push(record);
    assert(longer.drop_last() =~= records);
    assert(longer.last() == record);
    assert(longer.skip(1) =~= records.skip(1).push(record));
}

/// Once the cached records and the new one fit together, or nothing is
/// cached any more, what is wanted is known: the cached records with the
/// new one, or nothing at all.
proof fn lemma_newest_done(records: Seq<MessageRecord>, record: MessageRecord, capacity: u64)
    requires
        total_size(records) + cached_size(record) <= capacity || records.len() == 0,
    ensures
        total_size(records.push(record)) == total_size(records) + cached_size(record),
        newest_that_fit(records.push(record), capacity) == if total_size(records) + cached_size(
            record,
        ) <= capacity {
            records.push(record)
        } else {
            Seq::<MessageRecord>::empty()
        },
{
    let longer = records.push(record);
    assert(longer.drop_last() =~= records);
    assert(longer.last() == record);
    if total_size(longer) > capacity {
        assert(longer.skip(1) =~= Seq::<MessageRecord>::empty());
        assert(total_size(longer.skip(1)) == 0);
        assert(newest_that_fit(longer.skip(1), capacity) == longer.skip(1));
    }
}

/// An unbroken range without its oldest record is unbroken.
proof fn lemma_unbroken_skip(records: Seq<MessageRecord>)
    requires
        is_unbroken(records),
        records.len() > 0,
    ensures
        is_unbroken(records.skip(1)),
        records.skip(1).len() > 0 ==> records.skip(1).last() == records.last(),
{
    let rest = records.skip(1);
    assert forall|i: int| 0 <= i < rest.len() implies (#[trigger] rest[i]).offset == rest[0].offset
        + i by {
        assert(rest[i] == records[i + 1]);
        assert(rest[0] == records[1]);
    }
}

/// An unbroken range with the record that follows its last is unbroken.
proof fn lemma_unbroken_push(records: Seq<MessageRecord>, record: MessageRecord)
    requires
        is_unbroken(records),
        records.len() > 0 ==> records.last().offset + 1 == record.offset,
    ensures
        is_unbroken(records.push(record)),
{
    let longer = records.push(record);
    assert forall|i: int| 0 <= i < longer.len() implies (#[trigger] longer[i]).offset
        == longer[0].offset + i by {
        if i < records.len() {
            assert(longer[i] == records[i]);
            assert(longer[0] == records[0]);
        } else if records.len() > 0 {
            assert(records.last() == records[records.len() - 1]);
            assert(longer[0] == records[0]);
        }
    }
}

} // verus!
