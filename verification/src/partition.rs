//! A partition: an append-only log of messages, cut into segments.
//!
//! Offsets are dense: the first message ever appended has offset 0 and each
//! later one the next number. The log is cut into segments of consecutive
//! offsets; all but the last are closed, and only the last, the active one,
//! takes appends. Retention drops whole closed segments from the front, so
//! what is retained is always one unbroken range of offsets.

use crate::buffer::{contents, written};
use crate::commands::{first_rejection, validate_messages, PollingStrategy};
use crate::error::IggyError;
use crate::message::{Message, MessageRecord, RetainedMessage};
use crate::segment_log::{
    all_fit, first_record, lemma_scan_any_torn_log, log_bytes, normalized, open_log, scan,
    valid_length, write_log,
};
use bytes::{Bytes, BytesMut};
use vstd::prelude::*;

verus! {

/// One segment of a partition's log.
#[derive(Clone, Copy, Debug, PartialEq, Eq, Structural)]
pub struct Segment {
    /// Offset of the segment's first message.
    pub base_offset: u64,
    /// Number of messages in the segment.
    pub message_count: u64,
    /// Bytes that the segment's records take.
    pub size_bytes: u64,
    /// Timestamp of the segment's last message; the timestamp of the
    /// message before the segment while it is empty.
    pub max_timestamp: u64,
    /// Whether the segment has stopped taking appends.
    pub is_closed: bool,
}

impl Segment {
    /// The offset after the segment's last message.
    pub open spec fn end(self) -> nat {
        (self.base_offset + self.message_count) as nat
    }
}

/// When the active segment is closed: once it holds `size` bytes or more,
/// or `max_messages` messages or more.
#[derive(Clone, Copy, Debug, PartialEq, Eq, Structural)]
pub struct SegmentLimits {
    pub size: u64,
    pub max_messages: u64,
}

impl SegmentLimits {
    /// Whether a segment has reached a limit.
    pub open spec fn reached(self, segment: Segment) -> bool {
        segment.size_bytes >= self.size || segment.message_count >= self.max_messages
    }
}

/// The offsets that an append assigned: `count` of them, from `first` on.
#[derive(Clone, Copy, Debug, PartialEq, Eq, Structural)]
pub struct AssignedRange {
    pub first: u64,
    pub count: u64,
}

impl AssignedRange {
    /// Whether the range holds `offset`.
    pub open spec fn contains(self, offset: nat) -> bool {
        self.first <= offset < self.first + self.count
    }
}

/// The log of one partition.
#[derive(Debug)]
pub struct Partition {
    partition_id: u32,
    limits: SegmentLimits,
    segments: Vec<Segment>,
    messages: Vec<RetainedMessage>,
}

/// Whether closed segments come first, none of them empty, each followed
/// without a gap by the next, and the last segment is the open one.
pub open spec fn segments_chain(segments: Seq<Segment>) -> bool {
    &&& segments.len() >= 1
    &&& forall|i: int|
        0 <= i < segments.len() ==> (#[trigger] segments[i]).base_offset + segments[i].message_count
            <= u64::MAX
    &&& forall|i: int|
        0 <= i < segments.len() ==> (#[trigger] segments[i]).is_closed == (i < segments.len() - 1)
    &&& forall|i: int|
        0 <= i < segments.len() - 1 ==> (#[trigger] segments[i]).end() == segments[i
            + 1].base_offset
    &&& forall|i: int|
        0 <= i < segments.len() - 1 ==> (#[trigger] segments[i]).max_timestamp <= segments[i
            + 1].max_timestamp
    &&& forall|i: int| 0 <= i < segments.len() - 1 ==> (#[trigger] segments[i]).message_count > 0
}

/// Whether the messages carry consecutive offsets from `first` on and
/// timestamps that never run backwards.
pub open spec fn log_is_dense(messages: Seq<MessageRecord>, first: nat) -> bool {
    &&& forall|i: int| 0 <= i < messages.len() ==> (#[trigger] messages[i]).offset == first + i
    &&& forall|i: int, j: int|
        0 <= i <= j < messages.len() ==> (#[trigger] messages[i]).timestamp <= (
        #[trigger] messages[j]).timestamp
}

impl Partition {
    /// The partition's id within its topic, counted from 1.
    pub closed spec fn id(&self) -> u32 {
        self.partition_id
    }

    /// The limits at which the active segment is closed.
    pub closed spec fn limits(&self) -> SegmentLimits {
        self.limits
    }

    /// The partition's segments, oldest first.
    pub closed spec fn segments(&self) -> Seq<Segment> {
        self.segments@
    }

    /// The retained messages, oldest first.
    pub closed spec fn retained(&self) -> Seq<MessageRecord> {
        self.messages@.map_values(|message: RetainedMessage| message@)
    }

    /// The offset of the oldest retained message, or the next offset when
    /// nothing is retained.
    pub open spec fn first_offset(&self) -> nat {
        self.segments()[0].base_offset as nat
    }

    /// The offset that the next message will get: the number of messages
    /// ever appended.
    pub open spec fn next_offset(&self) -> nat {
        self.segments().last().end()
    }

    /// The timestamp of the newest message ever appended; 0 before the
    /// first.
    pub open spec fn last_timestamp(&self) -> u64 {
        self.segments().last().max_timestamp
    }

    /// The invariant of a partition: its segments chain up, its log is
    /// dense, and the two cover the same offsets.
    pub closed spec fn wf(&self) -> bool {
        &&& segments_chain(self.segments())
        &&& self.retained().len() == self.next_offset() - self.first_offset()
        &&& self.log_matches()
    }

    /// What the invariant says of the segments and the log.
    pub proof fn lemma_invariant(&self)
        requires
            self.wf(),
        ensures
            segments_chain(self.segments()),
            self.first_offset() <= self.next_offset() <= u64::MAX,
            self.retained().len() == self.next_offset() - self.first_offset(),
            log_is_dense(self.retained(), self.first_offset()),
    {
        reveal(Partition::log_matches);
        lemma_chain_is_ordered(self.segments(), 0, self.segments().len() - 1);
    }

    /// Whether the log carries the offsets and timestamps that the
    /// segments say: consecutive offsets from the first segment's base on,
    /// timestamps that never run backwards, and at the end of each segment
    /// the timestamp that the segment records as its latest.
    #[verifier::opaque]
    pub open spec fn log_matches(&self) -> bool {
        &&& log_is_dense(self.retained(), self.first_offset())
        &&& forall|i: int|
            0 <= i < self.retained().len() ==> (#[trigger] self.retained()[i]).timestamp
                <= self.last_timestamp()
        &&& forall|k: int|
            0 <= k < self.segments().len() && self.segments()[k].message_count > 0
                ==> #[trigger] self.segments()[k].max_timestamp == self.retained()[self.segments()[k].end()
                - 1 - self.first_offset()].timestamp
    }

    /// An empty partition with one open, empty segment at offset 0.
    pub fn new(partition_id: u32, limits: SegmentLimits) -> (partition: Partition)
        ensures
            partition.wf(),
            partition.id() == partition_id,
            partition.limits() == limits,
            partition.segments() == seq![
                Segment {
                    base_offset: 0,
                    message_count: 0,
                    size_bytes: 0,
                    max_timestamp: 0,
                    is_closed: false,
                },
            ],
            partition.retained() == Seq::<MessageRecord>::empty(),
    {
        let mut segments: Vec<Segment> = Vec::new();
        segments.push(
            Segment {
                base_offset: 0,
                message_count: 0,
                size_bytes: 0,
                max_timestamp: 0,
                is_closed: false,
            },
        );
        let partition = Partition {
            partition_id,
            limits,
            segments,
            messages: Vec::new(),
        };
        proof {
            assert(partition.segments() =~= seq![
                Segment {
                    base_offset: 0,
                    message_count: 0,
                    size_bytes: 0,
                    max_timestamp: 0,
                    is_closed: false,
                },
            ]);
            assert(partition.retained() =~= Seq::<MessageRecord>::empty());
            reveal(Partition::log_matches);
        }
        partition
    }

    /// Returns the partition's id.
    pub fn partition_id(&self) -> (id: u32)
        ensures
            id == self.id(),
    {
        self.partition_id
    }

    /// Returns whether no message was ever appended.
    pub fn is_empty(&self) -> (empty: bool)
        requires
            self.wf(),
        ensures
            empty == (self.next_offset() == 0),
    {
        let last = self.segments[self.segments.len() - 1];
        last.base_offset == 0 && last.message_count == 0
    }

    /// Returns the offset of the newest message ever appended; 0 while
    /// there is none.
    pub fn current_offset(&self) -> (offset: u64)
        requires
            self.wf(),
        ensures
            offset == if self.next_offset() == 0 {
                0
            } else {
                self.next_offset() - 1
            },
    {
        let last = self.segments[self.segments.len() - 1];
        let next = last.base_offset + last.message_count;
        if next == 0 {
            0
        } else {
            next - 1
        }
    }

    /// Returns the number of retained messages.
    pub fn message_count(&self) -> (count: u64)
        requires
            self.wf(),
        ensures
            count == self.retained().len(),
    {
        let first = self.segments[0];
        let last = self.segments[self.segments.len() - 1];
        last.base_offset + last.message_count - first.base_offset
    }

    /// Returns the partition's segments, oldest first.
    pub fn get_segments(&self) -> (segments: &Vec<Segment>)
        ensures
            segments@ == self.segments(),
    {
        &self.segments
    }
}

} // verus!

verus! {

/// Bytes that the record of a producer's message takes once retained: the
/// length prefix, the fixed part, the headers and the payload.
pub open spec fn stored_size(message: Message) -> nat {
    45 + crate::buffer::contents(message.payload).len() + match message.headers {
        Some(headers) => crate::headers::encoded_len(crate::headers::entries_of(headers@)),
        None => 0,
    }
}

/// Bytes that the records of a batch take.
pub open spec fn batch_size(messages: Seq<Message>) -> nat
    decreases messages.len(),
{
    if messages.len() == 0 {
        0
    } else {
        batch_size(messages.drop_last()) + stored_size(messages.last())
    }
}

/// The timestamp that an append made at `now` gives its messages: `now`,
/// unless the partition has already seen a later time.
pub open spec fn append_stamp(last_timestamp: u64, now: u64) -> u64 {
    if now >= last_timestamp {
        now
    } else {
        last_timestamp
    }
}

/// The records that a batch adds to the log.
pub open spec fn appended_records(messages: Seq<Message>, first: nat, stamp: u64) -> Seq<
    MessageRecord,
> {
    Seq::new(
        messages.len(),
        |i: int| crate::message::retained_record(messages[i], (first + i) as u64, stamp),
    )
}

/// The segments after `count` messages of `bytes` bytes in all were added
/// to the active one: it grows, and when it is not empty and has reached
/// a limit it is closed and an empty one opened behind it.
pub open spec fn appended_segments(
    segments: Seq<Segment>,
    count: nat,
    bytes: nat,
    stamp: u64,
    limits: SegmentLimits,
) -> Seq<Segment> {
    let active = segments.last();
    let grown = Segment {
        base_offset: active.base_offset,
        message_count: (active.message_count + count) as u64,
        size_bytes: (active.size_bytes + bytes) as u64,
        max_timestamp: if count > 0 {
            stamp
        } else {
            active.max_timestamp
        },
        is_closed: false,
    };
    if grown.message_count > 0 && limits.reached(grown) {
        segments.drop_last().push(
            Segment {
                base_offset: grown.base_offset,
                message_count: grown.message_count,
                size_bytes: grown.size_bytes,
                max_timestamp: grown.max_timestamp,
                is_closed: true,
            },
        ).push(
            Segment {
                base_offset: grown.end() as u64,
                message_count: 0,
                size_bytes: 0,
                max_timestamp: grown.max_timestamp,
                is_closed: false,
            },
        )
    } else {
        segments.drop_last().push(grown)
    }
}

impl Partition {
    /// Why an append is refused, if it is: a message over a size limit, or
    /// else a batch that would run the offsets or the active segment's byte
    /// count past what 64 bits hold.
    pub open spec fn refusal(&self, messages: Seq<Message>) -> Option<IggyError> {
        match first_rejection(messages) {
            Some(error) => Some(error),
            None => if self.next_offset() + messages.len() > u64::MAX
                || self.segments().last().size_bytes + batch_size(messages) > u64::MAX {
                Some(IggyError::CannotAppendMessages)
            } else {
                None
            },
        }
    }

    /// Whether `after` is this partition after a batch was appended at
    /// `now` and got the offsets of `range`.
    pub open spec fn appended(
        &self,
        messages: Seq<Message>,
        now: u64,
        after: &Partition,
        range: AssignedRange,
    ) -> bool {
        let stamp = append_stamp(self.last_timestamp(), now);
        &&& range.first == self.next_offset()
        &&& range.count == messages.len()
        &&& after.id() == self.id()
        &&& after.limits() == self.limits()
        &&& after.retained() == self.retained() + appended_records(
            messages,
            self.next_offset(),
            stamp,
        )
        &&& after.segments() == appended_segments(
            self.segments(),
            messages.len(),
            batch_size(messages),
            stamp,
            self.limits(),
        )
    }
}

/// Offsets are assigned in order and without gaps: an append is given the
/// offsets from the partition's next offset on, one per message, and
/// leaves the next offset right behind them.
pub proof fn lemma_append_advances(
    before: &Partition,
    messages: Seq<Message>,
    now: u64,
    after: &Partition,
    range: AssignedRange,
)
    requires
        before.wf(),
        before.refusal(messages) is None,
        before.appended(messages, now, after, range),
    ensures
        after.first_offset() == before.first_offset(),
        after.next_offset() == before.next_offset() + messages.len(),
        after.next_offset() == range.first + range.count,
        forall|i: int|
            0 <= i < messages.len() ==> (#[trigger] after.retained()[before.retained().len()
                + i]).offset == range.first + i,
{
    let segments = before.segments();
    let stamp = append_stamp(before.last_timestamp(), now);
    let next = appended_segments(
        segments,
        messages.len(),
        batch_size(messages),
        stamp,
        before.limits(),
    );
    assert(segments.last() == segments[segments.len() - 1]);
    if segments.len() > 1 {
        assert(next[0] == segments[0]);
    }
}

/// Offset monotonicity: of two appends, one after the other, every offset
/// of the first is below every offset of the second, and the second range
/// begins where the first one ends.
pub proof fn lemma_offset_monotonicity(
    start: &Partition,
    first_batch: Seq<Message>,
    first_now: u64,
    middle: &Partition,
    first_range: AssignedRange,
    second_batch: Seq<Message>,
    second_now: u64,
    end: &Partition,
    second_range: AssignedRange,
)
    requires
        start.wf(),
        middle.wf(),
        start.refusal(first_batch) is None,
        start.appended(first_batch, first_now, middle, first_range),
        middle.refusal(second_batch) is None,
        middle.appended(second_batch, second_now, end, second_range),
    ensures
        first_range.first + first_range.count == second_range.first,
        forall|a: nat, b: nat| first_range.contains(a) && second_range.contains(b) ==> a < b,
{
    lemma_append_advances(start, first_batch, first_now, middle, first_range);
}

} // verus!

verus! {

/// A batch that passes the size limits takes at most 45 + 10 000 000 +
/// 100 000 bytes per message.
proof fn lemma_batch_size_bound(messages: Seq<Message>)
    requires
        forall|i: int| 0 <= i < messages.len() ==> crate::commands::rejection(
            #[trigger] messages[i],
        ) is None,
    ensures
        batch_size(messages) <= messages.len() * 10_100_045,
    decreases messages.len(),
{
    if messages.len() > 0 {
        let rest = messages.drop_last();
        assert forall|i: int| 0 <= i < rest.len() implies crate::commands::rejection(
            #[trigger] rest[i],
        ) is None by {
            assert(rest[i] == messages[i]);
        }
        lemma_batch_size_bound(rest);
        assert(crate::commands::rejection(messages[messages.len() - 1]) is None);
        assert(messages.len() * 10_100_045 == rest.len() * 10_100_045 + 10_100_045)
            by (nonlinear_arith)
            requires
                messages.len() == rest.len() + 1,
        ;
    }
}

/// Returns the bytes that the records of a batch take. The batch must have
/// passed the size limits.
fn measure_batch(messages: &Vec<Message>) -> (bytes: u128)
    requires
        first_rejection(messages@) is None,
    ensures
        bytes == batch_size(messages@),
{
    let mut bytes: u128 = 0;
    let mut index: usize = 0;
    proof {
        crate::commands::lemma_first_rejection(messages@);
    }
    while index < messages.len()
        invariant
            index <= messages.len(),
            bytes == batch_size(messages@.take(index as int)),
            forall|i: int| 0 <= i < messages@.len() ==> crate::commands::rejection(
                #[trigger] messages@[i],
            ) is None,
        decreases messages.len() - index,
    {
        let message = &messages[index];
        proof {
            let before = messages@.take(index as int);
            let now = messages@.take(index + 1);
            assert(now.drop_last() =~= before);
            assert(now.last() == *message);
            assert forall|i: int| 0 <= i < before.len() implies crate::commands::rejection(
                #[trigger] before[i],
            ) is None by {
                assert(before[i] == messages@[i]);
            }
            lemma_batch_size_bound(before);
            assert(before.len() * 10_100_045 <= 0xFFFF_FFFF_FFFF_FFFF * 10_100_045)
                by (nonlinear_arith)
                requires
                    before.len() <= 0xFFFF_FFFF_FFFF_FFFF,
            ;
            assert(crate::commands::rejection(*message) is None);
        }
        let headers: u128 = match &message.headers {
            Some(headers) => crate::headers::headers_size(headers),
            None => 0,
        };
        let payload = crate::buffer::as_slice(&message.payload).len();
        bytes = bytes + 45 + payload as u128 + headers;
        index = index + 1;
    }
    proof {
        assert(messages@.take(index as int) == messages@);
    }
    bytes
}

impl Partition {
    /// Adds the records of a batch to the log, with offsets from `first`
    /// on and the timestamp `stamp`.
    fn store_batch(&mut self, messages: Vec<Message>, first: u64, stamp: u64)
        requires
            first + messages@.len() <= u64::MAX,
        ensures
            final(self).segments() == old(self).segments(),
            final(self).id() == old(self).id(),
            final(self).limits() == old(self).limits(),
            final(self).retained() == old(self).retained() + appended_records(
                messages@,
                first as nat,
                stamp,
            ),
    {
        let ghost sent = messages@;
        let ghost log_before = self.retained();
        let mut taken: u64 = 0;
        proof {
            assert(appended_records(sent.take(0), first as nat, stamp) =~= Seq::<
                MessageRecord,
            >::empty());
            assert(self.retained() =~= log_before + Seq::<MessageRecord>::empty());
        }
        for message in iter: messages
            invariant
                iter.seq() == sent,
                taken == iter.index(),
                first + sent.len() <= u64::MAX,
                self.segments == old(self).segments,
                self.partition_id == old(self).partition_id,
                self.limits == old(self).limits,
                self.retained() == log_before + appended_records(
                    sent.take(taken as int),
                    first as nat,
                    stamp,
                ),
        {
            let retained = RetainedMessage::new(first + taken, stamp, message);
            proof {
                let so_far = appended_records(sent.take(taken as int), first as nat, stamp);
                let longer = appended_records(sent.take(taken + 1), first as nat, stamp);
                assert(longer =~= so_far.push(retained@));
                assert(self.messages@.push(retained).map_values(
                    |message: RetainedMessage| message@,
                ) =~= self.retained().push(retained@));
                assert(log_before + longer =~= (log_before + so_far).push(retained@));
            }
            self.messages.push(retained);
            taken = taken + 1;
        }
        proof {
            assert(sent.take(taken as int) =~= sent);
        }
    }

    /// Accounts for `count` messages of `bytes` bytes in the active
    /// segment, and rolls it when it is due.
    fn grow_active(&mut self, count: u64, bytes: u64, stamp: u64)
        requires
            old(self).segments().len() >= 1,
            old(self).segments().last().base_offset + old(self).segments().last().message_count
                + count <= u64::MAX,
            old(self).segments().last().size_bytes + bytes <= u64::MAX,
        ensures
            final(self).retained() == old(self).retained(),
            final(self).id() == old(self).id(),
            final(self).limits() == old(self).limits(),
            final(self).segments() == appended_segments(
                old(self).segments(),
                count as nat,
                bytes as nat,
                stamp,
                old(self).limits(),
            ),
    {
        let last_index = self.segments.len() - 1;
        let active = self.segments[last_index];
        let grown = Segment {
            base_offset: active.base_offset,
            message_count: active.message_count + count,
            size_bytes: active.size_bytes + bytes,
            max_timestamp: if count > 0 {
                stamp
            } else {
                active.max_timestamp
            },
            is_closed: false,
        };
        if grown.message_count > 0 && (grown.size_bytes >= self.limits.size
            || grown.message_count >= self.limits.max_messages) {
            self.segments[last_index] = Segment {
                base_offset: grown.base_offset,
                message_count: grown.message_count,
                size_bytes: grown.size_bytes,
                max_timestamp: grown.max_timestamp,
                is_closed: true,
            };
            self.segments.push(
                Segment {
                    base_offset: grown.base_offset + grown.message_count,
                    message_count: 0,
                    size_bytes: 0,
                    max_timestamp: grown.max_timestamp,
                    is_closed: false,
                },
            );
        } else {
            self.segments[last_index] = grown;
        }
        proof {
            assert(self.segments@ =~= appended_segments(
                old(self).segments(),
                count as nat,
                bytes as nat,
                stamp,
                old(self).limits(),
            ));
        }
    }

    /// Returns the active segment.
    pub fn active_segment(&self) -> (segment: Segment)
        requires
            self.wf(),
        ensures
            segment == self.segments().last(),
            !segment.is_closed,
            segment.end() == self.next_offset(),
    {
        self.segments[self.segments.len() - 1]
    }

    /// Appends a batch received at `now`. Every message gets the next free
    /// offset and the append's timestamp and is added to the active
    /// segment, which is closed, and a new one opened, once it has reached
    /// a limit. A refused batch leaves the partition as it was.
    pub fn append(&mut self, messages: Vec<Message>, now: u64) -> (result: Result<
        AssignedRange,
        IggyError,
    >)
        requires
            old(self).wf(),
        ensures
            final(self).wf(),
            match result {
                Ok(range) => old(self).refusal(messages@) is None && old(self).appended(
                    messages@,
                    now,
                    final(self),
                    range,
                ),
                Err(error) => old(self).refusal(messages@) == Some(error) && *final(self) == *old(
                    self,
                ),
            },
    {
        match validate_messages(&messages) {
            Ok(()) => {},
            Err(error) => {
                return Err(error);
            },
        }
        let active = self.active_segment();
        let first: u64 = active.base_offset + active.message_count;
        let count: u64 = messages.len() as u64;
        let bytes: u128 = measure_batch(&messages);
        if count > u64::MAX - first || bytes > (u64::MAX - active.size_bytes) as u128 {
            return Err(IggyError::CannotAppendMessages);
        }
        let stamp: u64 = if now >= active.max_timestamp {
            now
        } else {
            active.max_timestamp
        };
        let ghost sent = messages@;
        self.store_batch(messages, first, stamp);
        self.grow_active(count, bytes as u64, stamp);
        let range = AssignedRange { first, count };
        proof {
            lemma_append_keeps_invariant(old(self), sent, now, self, range);
        }
        Ok(range)
    }
}

/// An append keeps the partition's invariant.
proof fn lemma_append_keeps_invariant(
    before: &Partition,
    messages: Seq<Message>,
    now: u64,
    after: &Partition,
    range: AssignedRange,
)
    requires
        before.wf(),
        before.refusal(messages) is None,
        before.appended(messages, now, after, range),
    ensures
        after.wf(),
{
    reveal(Partition::log_matches);
    let stamp = append_stamp(before.last_timestamp(), now);
    let old_segments = before.segments();
    let new_segments = after.segments();
    let old_log = before.retained();
    let new_log = after.retained();
    let added = appended_records(messages, before.next_offset(), stamp);
    let first = before.first_offset();
    lemma_append_advances(before, messages, now, after, range);
    assert(old_segments.last() == old_segments[old_segments.len() - 1]);
    assert forall|i: int| 0 <= i < new_log.len() implies (#[trigger] new_log[i]).offset == first
        + i && new_log[i].timestamp <= stamp by {
        if i < old_log.len() {
            assert(new_log[i] == old_log[i]);
        } else {
            assert(new_log[i] == added[i - old_log.len()]);
        }
    }
    assert forall|i: int, j: int| 0 <= i <= j < new_log.len() implies (
    #[trigger] new_log[i]).timestamp <= (#[trigger] new_log[j]).timestamp by {
        if j < old_log.len() {
            assert(new_log[i] == old_log[i]);
            assert(new_log[j] == old_log[j]);
        } else if i < old_log.len() {
            assert(new_log[i] == old_log[i]);
            assert(new_log[j] == added[j - old_log.len()]);
        } else {
            assert(new_log[i] == added[i - old_log.len()]);
            assert(new_log[j] == added[j - old_log.len()]);
        }
    }
    assert(segments_chain(new_segments)) by {
        assert forall|i: int| 0 <= i < old_segments.len() - 1 implies new_segments[i]
            == old_segments[i] by {}
    }
    assert forall|k: int|
        0 <= k < new_segments.len() && new_segments[k].message_count > 0 implies (
    #[trigger] new_segments[k]).max_timestamp == new_log[new_segments[k].end() - 1
        - first].timestamp by {
        if k < old_segments.len() - 1 {
            assert(new_segments[k] == old_segments[k]);
            assert(old_segments[k].end() <= old_segments[old_segments.len() - 1].base_offset) by {
                lemma_chain_is_ordered(old_segments, k, old_segments.len() - 1);
            }
            let at = old_segments[k].end() - 1 - first;
            assert(0 <= at) by {
                lemma_chain_is_ordered(old_segments, 0, k);
            }
            assert(new_log[at] == old_log[at]);
        } else if k == old_segments.len() - 1 {
            let at = new_segments[k].end() - 1 - first;
            assert(0 <= first <= old_segments[k].base_offset) by {
                lemma_chain_is_ordered(old_segments, 0, k);
            }
            if messages.len() > 0 {
                assert(new_log[at] == added[at - old_log.len()]);
            } else {
                assert(new_log[at] == old_log[at]);
            }
        }
    }
}

/// Later segments begin no earlier than earlier ones end.
proof fn lemma_chain_is_ordered(segments: Seq<Segment>, i: int, j: int)
    requires
        segments_chain(segments),
        0 <= i <= j < segments.len(),
    ensures
        segments[i].base_offset <= segments[j].base_offset,
        i < j ==> segments[i].end() <= segments[j].base_offset,
        segments[i].max_timestamp <= segments[j].max_timestamp,
    decreases j - i,
{
    if i < j {
        lemma_chain_is_ordered(segments, i + 1, j);
        assert(segments[i].end() == segments[i + 1].base_offset);
    }
}

} // verus!

verus! {

/// The index of the segment that holds `offset`: the last one that begins
/// at or before it.
pub open spec fn holder(segments: Seq<Segment>, offset: nat) -> int
    decreases segments.len(),
{
    if segments.len() <= 1 || segments.last().base_offset <= offset {
        segments.len() - 1
    } else {
        holder(segments.drop_last(), offset)
    }
}

/// The number of messages at the front of the log whose timestamp is
/// before `timestamp`.
pub open spec fn count_before(log: Seq<MessageRecord>, timestamp: u64) -> nat
    decreases log.len(),
{
    if log.len() == 0 {
        0
    } else if log.last().timestamp < timestamp {
        log.len()
    } else {
        count_before(log.drop_last(), timestamp)
    }
}

/// In a log whose timestamps never run backwards, the messages before
/// `count_before` are exactly those with an earlier timestamp.
pub proof fn lemma_count_before(log: Seq<MessageRecord>, timestamp: u64, index: int)
    requires
        forall|i: int, j: int|
            0 <= i <= j < log.len() ==> (#[trigger] log[i]).timestamp <= (
            #[trigger] log[j]).timestamp,
        0 <= index < log.len(),
    ensures
        count_before(log, timestamp) <= log.len(),
        index < count_before(log, timestamp) <==> log[index].timestamp < timestamp,
    decreases log.len(),
{
    if log.last().timestamp < timestamp {
        assert(log[index].timestamp <= log[log.len() - 1].timestamp);
    } else {
        let rest = log.drop_last();
        if index < rest.len() {
            assert forall|i: int, j: int| 0 <= i <= j < rest.len() implies (
            #[trigger] rest[i]).timestamp <= (#[trigger] rest[j]).timestamp by {
                assert(rest[i] == log[i]);
                assert(rest[j] == log[j]);
            }
            lemma_count_before(rest, timestamp, index);
            assert(rest[index] == log[index]);
        } else {
            lemma_count_before_bound(rest, timestamp);
        }
    }
}

proof fn lemma_count_before_bound(log: Seq<MessageRecord>, timestamp: u64)
    ensures
        count_before(log, timestamp) <= log.len(),
    decreases log.len(),
{
    if log.len() > 0 && !(log.last().timestamp < timestamp) {
        lemma_count_before_bound(log.drop_last(), timestamp);
    }
}

/// The segment that holds an offset is the one whose range the offset
/// lies in.
proof fn lemma_holder(segments: Seq<Segment>, offset: nat, index: int)
    requires
        segments_chain(segments),
        0 <= index < segments.len(),
        segments[index].base_offset <= offset,
        index + 1 < segments.len() ==> offset < segments[index + 1].base_offset,
    ensures
        holder(segments, offset) == index,
{
    assert(segments.take(segments.len() as int) =~= segments);
    lemma_holder_prefix(segments, segments.len() as int, offset, index);
}

/// `holder` looks at bases only, so it finds the same segment in any
/// prefix of the chain that still has the segment after the one sought.
proof fn lemma_holder_prefix(segments: Seq<Segment>, length: int, offset: nat, index: int)
    requires
        segments_chain(segments),
        1 <= length <= segments.len(),
        0 <= index < length,
        segments[index].base_offset <= offset,
        index + 1 < segments.len() ==> offset < segments[index + 1].base_offset,
    ensures
        holder(segments.take(length), offset) == index,
    decreases length,
{
    let part = segments.take(length);
    assert(part.last() == segments[length - 1]);
    if length > 1 {
        if index == length - 1 {
        } else {
            lemma_chain_is_ordered(segments, index + 1, length - 1);
            assert(part.drop_last() =~= segments.take(length - 1));
            lemma_holder_prefix(segments, length - 1, offset, index);
        }
    }
}

impl Partition {
    /// The offset at which a poll starts. `committed` is the offset last
    /// committed for the polling consumer, which only `Next` looks at.
    pub open spec fn start_offset(&self, strategy: PollingStrategy, committed: Option<u64>) -> nat {
        match strategy {
            PollingStrategy::Offset(offset) => offset as nat,
            PollingStrategy::Timestamp(timestamp) => self.first_offset() + count_before(
                self.retained(),
                timestamp,
            ),
            PollingStrategy::First => self.first_offset(),
            PollingStrategy::Latest(count) => if count >= self.next_offset() {
                0
            } else {
                (self.next_offset() - count) as nat
            },
            PollingStrategy::Next => match committed {
                Some(offset) => if offset == u64::MAX {
                    u64::MAX as nat
                } else {
                    (offset + 1) as nat
                },
                None => 0,
            },
        }
    }

    /// The offsets that a poll of `count` messages from `start` delivers,
    /// as the first one and the one after the last. A poll starts at the
    /// oldest retained message if `start` is older and at the partition's
    /// end if `start` lies beyond it, where there is nothing to deliver, and
    /// it goes no further than the end of the segment behind the one it
    /// starts in.
    pub open spec fn poll_range(&self, start: nat, count: u32) -> (nat, nat) {
        let from = if start < self.first_offset() {
            self.first_offset()
        } else if start > self.next_offset() {
            self.next_offset()
        } else {
            start
        };
        if from == self.next_offset() || count == 0 {
            (from, from)
        } else {
            let segments = self.segments();
            let held_by = holder(segments, from);
            let limit = if held_by + 1 < segments.len() {
                segments[held_by + 1].end()
            } else {
                segments[held_by].end()
            };
            if from + count < limit {
                (from, (from + count) as nat)
            } else {
                (from, limit)
            }
        }
    }

    /// The messages that a poll of `count` messages from `start` delivers.
    pub open spec fn polled(&self, start: nat, count: u32) -> Seq<MessageRecord> {
        let (from, to) = self.poll_range(start, count);
        self.retained().subrange(from - self.first_offset(), to - self.first_offset())
    }
}

} // verus!

verus! {

impl Partition {
    /// Finds, by binary search on the base offsets, the segment that holds
    /// a retained offset.
    fn find_segment(&self, offset: u64) -> (index: usize)
        requires
            self.wf(),
            self.first_offset() <= offset < self.next_offset(),
        ensures
            index == holder(self.segments(), offset as nat),
            index < self.segments().len(),
            self.segments()[index as int].base_offset <= offset < self.segments()[index as int].end(),
    {
        let mut low: usize = 0;
        let mut high: usize = self.segments.len();
        while high - low > 1
            invariant
                self.wf(),
                0 <= low < high <= self.segments@.len(),
                self.segments@[low as int].base_offset <= offset,
                high < self.segments@.len() ==> offset < self.segments@[high as int].base_offset,
            decreases high - low,
        {
            let middle = low + (high - low) / 2;
            if self.segments[middle].base_offset <= offset {
                low = middle;
            } else {
                high = middle;
            }
        }
        proof {
            lemma_holder(self.segments(), offset as nat, low as int);
            if low + 1 < self.segments@.len() {
                assert(self.segments@[low as int].end() == self.segments@[low + 1].base_offset);
            }
        }
        low
    }

    /// Finds, by binary search on the timestamps, the offset of the first
    /// retained message that is not older than `timestamp`; the next offset
    /// when every retained message is older.
    fn find_by_timestamp(&self, timestamp: u64) -> (offset: u64)
        requires
            self.wf(),
        ensures
            offset == self.first_offset() + count_before(self.retained(), timestamp),
            self.first_offset() <= offset <= self.next_offset(),
    {
        let ghost log = self.retained();
        let mut low: usize = 0;
        let mut high: usize = self.messages.len();
        proof {
            reveal(Partition::log_matches);
        }
        while low < high
            invariant
                segments_chain(self.segments()),
                log_is_dense(log, self.first_offset()),
                log == self.retained(),
                0 <= low <= high <= log.len(),
                log.len() == self.messages@.len(),
                forall|i: int| 0 <= i < low ==> (#[trigger] log[i]).timestamp < timestamp,
                forall|i: int| high <= i < log.len() ==> (#[trigger] log[i]).timestamp >= timestamp,
            decreases high - low,
        {
            let middle = low + (high - low) / 2;
            assert(log[middle as int] == self.messages@[middle as int]@);
            if self.messages[middle].timestamp < timestamp {
                assert forall|i: int| 0 <= i < middle + 1 implies (#[trigger] log[i]).timestamp
                    < timestamp by {
                    assert(log[i].timestamp <= log[middle as int].timestamp);
                }
                low = middle + 1;
            } else {
                assert forall|i: int| middle <= i < log.len() implies (
                #[trigger] log[i]).timestamp >= timestamp by {
                    assert(log[middle as int].timestamp <= log[i].timestamp);
                }
                high = middle;
            }
        }
        proof {
            lemma_count_before_bound(log, timestamp);
            if low < log.len() {
                lemma_count_before(log, timestamp, low as int);
            }
            if low > 0 {
                lemma_count_before(log, timestamp, low - 1);
            }
        }
        self.segments[0].base_offset + low as u64
    }

    /// Returns the offset at which a poll starts. `committed` is the offset
    /// last committed for the polling consumer.
    pub fn resolve_start(&self, strategy: PollingStrategy, committed: Option<u64>) -> (start: u64)
        requires
            self.wf(),
        ensures
            start == self.start_offset(strategy, committed),
    {
        match strategy {
            PollingStrategy::Offset(offset) => offset,
            PollingStrategy::Timestamp(timestamp) => self.find_by_timestamp(timestamp),
            PollingStrategy::First => self.segments[0].base_offset,
            PollingStrategy::Latest(count) => {
                let active = self.active_segment();
                let next = active.base_offset + active.message_count;
                if count >= next {
                    0
                } else {
                    next - count
                }
            },
            PollingStrategy::Next => match committed {
                Some(offset) => if offset == u64::MAX {
                    u64::MAX
                } else {
                    offset + 1
                },
                None => 0,
            },
        }
    }

    /// Copies the log's messages from index `begin` up to but excluding
    /// index `end`.
    fn read_range(&self, begin: usize, end: usize) -> (messages: Vec<RetainedMessage>)
        requires
            begin <= end <= self.retained().len(),
        ensures
            messages@.map_values(|message: RetainedMessage| message@) == self.retained().subrange(
                begin as int,
                end as int,
            ),
            messages@.len() == end - begin,
    {
        let ghost log = self.retained();
        let mut messages: Vec<RetainedMessage> = Vec::new();
        let mut position: usize = begin;
        proof {
            assert(messages@.map_values(|message: RetainedMessage| message@) =~= log.subrange(
                begin as int,
                position as int,
            ));
        }
        while position < end
            invariant
                log == self.retained(),
                begin <= position <= end <= log.len(),
                log.len() == self.messages@.len(),
                messages@.len() == position - begin,
                messages@.map_values(|message: RetainedMessage| message@) == log.subrange(
                    begin as int,
                    position as int,
                ),
            decreases end - position,
        {
            let copy = self.messages[position].share();
            proof {
                assert(log[position as int] == self.messages@[position as int]@);
                assert(messages@.push(copy).map_values(|message: RetainedMessage| message@)
                    =~= log.subrange(begin as int, position + 1));
            }
            messages.push(copy);
            position = position + 1;
        }
        messages
    }

    /// Returns the offsets that a poll of `count` messages from `start`
    /// delivers: the first one and the one after the last.
    pub fn resolve_range(&self, start: u64, count: u32) -> (range: (u64, u64))
        requires
            self.wf(),
        ensures
            (range.0 as nat, range.1 as nat) == self.poll_range(start as nat, count),
            self.first_offset() <= range.0 <= range.1 <= self.next_offset(),
            range.1 - range.0 <= count,
    {
        let first = self.segments[0].base_offset;
        let active = self.active_segment();
        let next = active.base_offset + active.message_count;
        let from: u64 = if start < first {
            first
        } else if start > next {
            next
        } else {
            start
        };
        if from == next || count == 0 {
            return (from, from);
        }
        let held_by = self.find_segment(from);
        let limit: u64 = if held_by < self.segments.len() - 1 {
            let behind = self.segments[held_by + 1];
            behind.base_offset + behind.message_count
        } else {
            let holding = self.segments[held_by];
            holding.base_offset + holding.message_count
        };
        proof {
            if held_by + 1 < self.segments@.len() {
                lemma_chain_is_ordered(self.segments(), held_by + 1, self.segments@.len() - 1);
                assert(self.segments()[held_by as int].end() == self.segments()[held_by
                    + 1].base_offset);
            }
        }
        if count as u64 >= limit - from {
            (from, limit)
        } else {
            (from, from + count as u64)
        }
    }

    /// Reads up to `count` messages from `start` on, in offset order. The
    /// messages returned share their bytes with the log.
    pub fn poll(&self, start: u64, count: u32) -> (messages: Vec<RetainedMessage>)
        requires
            self.wf(),
        ensures
            messages@.map_values(|message: RetainedMessage| message@) == self.polled(
                start as nat,
                count,
            ),
            messages@.len() <= count,
    {
        let first = self.segments[0].base_offset;
        let (from, to) = self.resolve_range(start, count);
        let held = self.messages.len();
        assert(self.retained().len() == held);
        self.read_range((from - first) as usize, (to - first) as usize)
    }
}

} // verus!

verus! {

/// Bytes held by the closed segments: all segments but the last.
pub open spec fn closed_size(segments: Seq<Segment>) -> nat
    decreases segments.len(),
{
    if segments.len() <= 1 {
        0
    } else {
        (segments[0].size_bytes + closed_size(segments.skip(1))) as nat
    }
}

/// Whether a segment's newest message is older than `expiry` at `now`.
/// Without an expiry nothing is.
pub open spec fn is_expired(segment: Segment, now: u64, expiry: Option<u64>) -> bool {
    match expiry {
        Some(age) => segment.max_timestamp + age < now,
        None => false,
    }
}

/// Whether the closed segments hold more than `max_size` bytes. Without a
/// limit they never do.
pub open spec fn over_budget(segments: Seq<Segment>, max_size: Option<u64>) -> bool {
    match max_size {
        Some(limit) => closed_size(segments) > limit,
        None => false,
    }
}

/// The number of segments that retention drops from the front: the oldest
/// segment goes while it is closed and either expired or part of a log
/// that is over budget.
pub open spec fn drop_count(
    segments: Seq<Segment>,
    now: u64,
    expiry: Option<u64>,
    max_size: Option<u64>,
) -> nat
    decreases segments.len(),
{
    if segments.len() <= 1 {
        0
    } else if is_expired(segments[0], now, expiry) || over_budget(segments, max_size) {
        1 + drop_count(segments.skip(1), now, expiry, max_size)
    } else {
        0
    }
}

/// Retention never drops the last segment.
pub proof fn lemma_drop_count_bound(
    segments: Seq<Segment>,
    now: u64,
    expiry: Option<u64>,
    max_size: Option<u64>,
)
    requires
        segments.len() >= 1,
    ensures
        drop_count(segments, now, expiry, max_size) < segments.len(),
    decreases segments.len(),
{
    if segments.len() > 1 {
        lemma_drop_count_bound(segments.skip(1), now, expiry, max_size);
    }
}

/// What is left of a chain of segments when some are dropped from the
/// front is a chain.
proof fn lemma_chain_skip(segments: Seq<Segment>, dropped: int)
    requires
        segments_chain(segments),
        0 <= dropped < segments.len(),
    ensures
        segments_chain(segments.skip(dropped)),
{
    let kept = segments.skip(dropped);
    assert forall|i: int| 0 <= i < kept.len() implies kept[i] == segments[i + dropped] by {}
    assert forall|i: int| 0 <= i < kept.len() - 1 implies (#[trigger] kept[i]).end() == kept[i
        + 1].base_offset && kept[i].max_timestamp <= kept[i + 1].max_timestamp
        && kept[i].message_count > 0 by {
        assert(kept[i] == segments[i + dropped]);
        assert(kept[i + 1] == segments[i + dropped + 1]);
    }
}

/// The retention bound: after retention the closed segments together hold
/// no more than the size limit, and none of them is expired. The active
/// segment is never dropped, whatever its age and size.
pub proof fn lemma_retention_bound(
    segments: Seq<Segment>,
    now: u64,
    expiry: Option<u64>,
    max_size: Option<u64>,
)
    requires
        segments_chain(segments),
    ensures
        ({
            let kept = segments.skip(drop_count(segments, now, expiry, max_size) as int);
            &&& kept.len() >= 1
            &&& kept.last() == segments.last()
            &&& !over_budget(kept, max_size)
            &&& forall|i: int| 0 <= i < kept.len() - 1 ==> !is_expired(#[trigger] kept[i], now, expiry)
        }),
    decreases segments.len(),
{
    let dropped = drop_count(segments, now, expiry, max_size);
    if segments.len() <= 1 {
        assert(segments.skip(0) =~= segments);
    } else if is_expired(segments[0], now, expiry) || over_budget(segments, max_size) {
        let rest = segments.skip(1);
        lemma_chain_skip(segments, 1);
        lemma_retention_bound(rest, now, expiry, max_size);
        lemma_drop_count_bound(rest, now, expiry, max_size);
        assert(rest.skip(dropped - 1) =~= segments.skip(dropped as int));
        assert(rest.last() == segments.last());
    } else {
        assert(segments.skip(0) =~= segments);
        assert forall|i: int| 0 <= i < segments.len() - 1 implies !is_expired(
            #[trigger] segments[i],
            now,
            expiry,
        ) by {
            lemma_chain_is_ordered(segments, 0, i);
        }
    }
}

} // verus!

verus! {

/// The closed segments hold at most 2^64 - 1 bytes each.
proof fn lemma_closed_size_bound(segments: Seq<Segment>)
    ensures
        closed_size(segments) <= segments.len() * 0xFFFF_FFFF_FFFF_FFFF,
    decreases segments.len(),
{
    if segments.len() > 1 {
        lemma_closed_size_bound(segments.skip(1));
        assert(segments.len() * 0xFFFF_FFFF_FFFF_FFFF == segments.skip(1).len()
            * 0xFFFF_FFFF_FFFF_FFFF + 0xFFFF_FFFF_FFFF_FFFF) by (nonlinear_arith)
            requires
                segments.len() == segments.skip(1).len() + 1,
        ;
    } else {
        assert(segments.len() * 0xFFFF_FFFF_FFFF_FFFF >= 0) by (nonlinear_arith)
            requires
                segments.len() >= 0,
        ;
    }
}

/// Adding a segment behind the active one adds the active one's bytes to
/// the closed size.
proof fn lemma_closed_size_take(segments: Seq<Segment>, length: int)
    requires
        1 <= length < segments.len(),
    ensures
        closed_size(segments.take(length + 1)) == closed_size(segments.take(length)) + segments[length
            - 1].size_bytes,
    decreases length,
{
    let shorter = segments.take(length);
    let longer = segments.take(length + 1);
    if length == 1 {
        assert(longer.skip(1).len() == 1);
        assert(closed_size(longer.skip(1)) == 0);
    } else {
        lemma_closed_size_take(segments.skip(1), length - 1);
        assert(longer.skip(1) =~= segments.skip(1).take(length));
        assert(shorter.skip(1) =~= segments.skip(1).take(length - 1));
    }
}

impl Partition {
    /// Returns the bytes held by the closed segments.
    pub fn closed_size_bytes(&self) -> (bytes: u128)
        requires
            self.wf(),
        ensures
            bytes == closed_size(self.segments()),
    {
        let mut bytes: u128 = 0;
        let mut index: usize = 1;
        let total = self.segments.len();
        proof {
            assert(closed_size(self.segments@.take(1)) == 0);
        }
        while index < total
            invariant
                1 <= index <= total,
                total == self.segments@.len(),
                bytes == closed_size(self.segments@.take(index as int)),
            decreases total - index,
        {
            proof {
                lemma_closed_size_take(self.segments@, index as int);
                lemma_closed_size_bound(self.segments@.take(index as int));
                assert(index * 0xFFFF_FFFF_FFFF_FFFF <= 0xFFFF_FFFF_FFFF_FFFF
                    * 0xFFFF_FFFF_FFFF_FFFF) by (nonlinear_arith)
                    requires
                        index <= 0xFFFF_FFFF_FFFF_FFFF,
                ;
            }
            bytes = bytes + self.segments[index - 1].size_bytes as u128;
            index = index + 1;
        }
        proof {
            assert(self.segments@.take(index as int) =~= self.segments@);
        }
        bytes
    }

    /// Whether `after` is this partition with its `dropped` oldest
    /// segments, and their messages, gone.
    pub open spec fn trimmed(&self, dropped: nat, after: &Partition) -> bool {
        &&& dropped < self.segments().len()
        &&& after.id() == self.id()
        &&& after.limits() == self.limits()
        &&& after.segments() == self.segments().skip(dropped as int)
        &&& after.retained() == self.retained().skip(
            self.segments()[dropped as int].base_offset - self.first_offset(),
        )
    }

    /// Applies the retention policy at `now`: drops the oldest segment
    /// while it is closed and either older than `expiry` or part of closed
    /// segments that hold more than `max_size` bytes. Returns the number of
    /// segments dropped. The active segment, and so the next offset, stay.
    pub fn apply_retention(&mut self, now: u64, expiry: Option<u64>, max_size: Option<u64>) -> (dropped:
        usize)
        requires
            old(self).wf(),
        ensures
            final(self).wf(),
            dropped == drop_count(old(self).segments(), now, expiry, max_size),
            old(self).trimmed(dropped as nat, final(self)),
            final(self).next_offset() == old(self).next_offset(),
    {
        let total = self.segments.len();
        let mut closed_bytes: u128 = self.closed_size_bytes();
        let mut dropped: usize = 0;
        let ghost segments = self.segments@;
        proof {
            assert(segments.skip(0) =~= segments);
        }
        loop
            invariant
                segments == self.segments@,
                *self == *old(self),
                total == segments.len(),
                segments_chain(segments),
                dropped < total,
                closed_bytes == closed_size(segments.skip(dropped as int)),
                drop_count(segments, now, expiry, max_size) == dropped + drop_count(
                    segments.skip(dropped as int),
                    now,
                    expiry,
                    max_size,
                ),
            ensures
                dropped < total,
                drop_count(segments, now, expiry, max_size) == dropped,
            decreases total - dropped,
        {
            let ghost rest = segments.skip(dropped as int);
            if dropped >= total - 1 {
                break ;
            }
            let oldest = self.segments[dropped];
            assert(rest[0] == oldest);
            let expired = match expiry {
                Some(age) => (oldest.max_timestamp as u128) + (age as u128) < now as u128,
                None => false,
            };
            let over = match max_size {
                Some(limit) => closed_bytes > limit as u128,
                None => false,
            };
            if !(expired || over) {
                break ;
            }
            proof {
                assert(rest.skip(1) =~= segments.skip(dropped + 1));
            }
            closed_bytes = closed_bytes - oldest.size_bytes as u128;
            dropped = dropped + 1;
        }
        if dropped > 0 {
            proof {
                lemma_chain_is_ordered(segments, 0, dropped as int);
                lemma_chain_is_ordered(segments, dropped as int, total - 1);
            }
            let held = self.messages.len();
            assert(self.retained().len() == held);
            let cut = self.segments[dropped].base_offset - self.segments[0].base_offset;
            let kept_segments = self.segments.split_off(dropped);
            let kept_messages = self.messages.split_off(cut as usize);
            self.segments = kept_segments;
            self.messages = kept_messages;
            proof {
                assert(self.segments@ =~= segments.skip(dropped as int));
                assert(self.retained() =~= old(self).retained().skip(cut as int));
            }
        } else {
            proof {
                assert(segments.skip(0) =~= segments);
                assert(self.retained().skip(0) =~= self.retained());
            }
        }
        proof {
            lemma_retention_keeps_invariant(old(self), dropped as nat, self);
        }
        dropped
    }
}

/// Dropping segments from the front keeps the partition's invariant and
/// its next offset.
proof fn lemma_retention_keeps_invariant(before: &Partition, dropped: nat, after: &Partition)
    requires
        before.wf(),
        before.trimmed(dropped, after),
    ensures
        after.wf(),
        after.next_offset() == before.next_offset(),
{
    reveal(Partition::log_matches);
    let segments = before.segments();
    let kept = after.segments();
    let log = before.retained();
    let kept_log = after.retained();
    let cut = segments[dropped as int].base_offset - before.first_offset();
    lemma_chain_skip(segments, dropped as int);
    lemma_chain_is_ordered(segments, 0, dropped as int);
    lemma_chain_is_ordered(segments, dropped as int, segments.len() - 1);
    assert(kept[0] == segments[dropped as int]);
    assert(kept.last() == segments.last());
    assert(0 <= cut <= log.len());
    assert forall|i: int| 0 <= i < kept_log.len() implies kept_log[i] == log[i + cut] by {}
    assert forall|k: int| 0 <= k < kept.len() && kept[k].message_count > 0 implies (
    #[trigger] kept[k]).max_timestamp == kept_log[kept[k].end() - 1
        - after.first_offset()].timestamp by {
        assert(kept[k] == segments[k + dropped]);
        lemma_chain_is_ordered(segments, dropped as int, k + dropped);
        lemma_chain_is_ordered(segments, k + dropped, segments.len() - 1);
        let at = kept[k].end() - 1 - after.first_offset();
        assert(kept_log[at] == log[at + cut]);
    }
}

} // verus!

verus! {

/// One segment as it is stored: its base offset, and the bytes of its log.
#[derive(Debug)]
pub struct StoredSegment {
    pub base_offset: u64,
    pub log: Bytes,
}

/// Whether the records carry consecutive offsets from `next` on and
/// timestamps that begin at `floor` or later and never run backwards.
pub open spec fn follows(records: Seq<MessageRecord>, next: nat, floor: u64) -> bool {
    &&& forall|i: int| 0 <= i < records.len() ==> (#[trigger] records[i]).offset == next + i
    &&& forall|i: int, j: int|
        0 <= i <= j < records.len() ==> (#[trigger] records[i]).timestamp <= (
        #[trigger] records[j]).timestamp
    &&& records.len() > 0 ==> records[0].timestamp >= floor
}

/// The timestamp of the newest of the records; `floor` when there are
/// none.
pub open spec fn newest_stamp(records: Seq<MessageRecord>, floor: u64) -> u64 {
    if records.len() > 0 {
        records.last().timestamp
    } else {
        floor
    }
}

/// Whether the stored segments from the one at `index` on continue a log
/// whose next offset is `next` and whose newest timestamp is `floor`: each
/// holds the offsets that follow the segment before it, and none but the
/// last is empty.
pub open spec fn continues(stored: Seq<StoredSegment>, index: int, next: nat, floor: u64) -> bool
    decreases stored.len() - index,
{
    if index < 0 || index >= stored.len() {
        true
    } else {
        let records = scan(contents(stored[index].log));
        &&& stored[index].base_offset == next
        &&& follows(records, next, floor)
        &&& next + records.len() <= u64::MAX
        &&& index < stored.len() - 1 ==> records.len() > 0
        &&& continues(stored, index + 1, next + records.len(), newest_stamp(records, floor))
    }
}

/// Whether a partition can be rebuilt from the stored segments: there is
/// at least one, and they hold one unbroken range of offsets.
pub open spec fn restorable(stored: Seq<StoredSegment>) -> bool {
    stored.len() >= 1 && continues(stored, 0, stored[0].base_offset as nat, 0)
}

impl Partition {
    /// The messages of the segment at `index`.
    pub open spec fn segment_records(&self, index: int) -> Seq<MessageRecord> {
        self.retained().subrange(
            self.segments()[index].base_offset - self.first_offset(),
            self.segments()[index].end() - self.first_offset(),
        )
    }

    /// Whether this partition holds what the stored segments hold: segment
    /// for segment the same base offset, the messages that the log reads
    /// as, and as its size the bytes that those messages take.
    pub open spec fn holds(&self, stored: Seq<StoredSegment>) -> bool {
        &&& self.segments().len() == stored.len()
        &&& forall|k: int|
            0 <= k < stored.len() ==> {
                &&& (#[trigger] self.segments()[k]).base_offset == stored[k].base_offset
                &&& self.segments()[k].message_count == scan(contents(stored[k].log)).len()
                &&& self.segments()[k].size_bytes == valid_length(contents(stored[k].log))
                &&& self.segment_records(k) == scan(contents(stored[k].log))
            }
    }

    /// Checks the messages read from one stored segment and adds them to
    /// the log. Returns the timestamp of the newest message.
    fn adopt(&mut self, messages: Vec<RetainedMessage>, next: u64, floor: u64) -> (result: Option<
        u64,
    >)
        requires
            next + messages@.len() <= u64::MAX,
        ensures
            final(self).partition_id == old(self).partition_id,
            final(self).limits == old(self).limits,
            final(self).segments == old(self).segments,
            match result {
                Some(newest) => {
                    &&& follows(
                        messages@.map_values(|message: RetainedMessage| message@),
                        next as nat,
                        floor,
                    )
                    &&& newest == newest_stamp(
                        messages@.map_values(|message: RetainedMessage| message@),
                        floor,
                    )
                    &&& final(self).retained() == old(self).retained() + messages@.map_values(
                        |message: RetainedMessage| message@,
                    )
                },
                None => !follows(
                    messages@.map_values(|message: RetainedMessage| message@),
                    next as nat,
                    floor,
                ),
            },
    {
        let ghost records = messages@.map_values(|message: RetainedMessage| message@);
        let ghost before = self.retained();
        let mut newest: u64 = floor;
        let mut taken: u64 = 0;
        proof {
            assert(before + records.take(0) =~= before);
        }
        for message in iter: messages
            invariant
                iter.seq() == messages@,
                records == messages@.map_values(|message: RetainedMessage| message@),
                taken == iter.index(),
                next + records.len() <= u64::MAX,
                self.partition_id == old(self).partition_id,
                self.limits == old(self).limits,
                self.segments == old(self).segments,
                self.retained() == before + records.take(taken as int),
                follows(records.take(taken as int), next as nat, floor),
                newest == newest_stamp(records.take(taken as int), floor),
        {
            let ghost seen = records.take(taken as int);
            let ghost longer = records.take(taken + 1);
            proof {
                assert(records[taken as int] == message@);
                assert(longer =~= seen.push(message@));
            }
            if message.offset != next + taken || message.timestamp < newest {
                proof {
                    if follows(records, next as nat, floor) {
                        if taken > 0 {
                            assert(seen.last() == records[taken - 1]);
                            assert(records[taken - 1].timestamp <= records[taken as int].timestamp);
                        }
                    }
                }
                return None;
            }
            proof {
                assert forall|i: int, j: int| 0 <= i <= j < longer.len() implies (
                #[trigger] longer[i]).timestamp <= (#[trigger] longer[j]).timestamp by {
                    if j < seen.len() {
                        assert(longer[i] == seen[i] && longer[j] == seen[j]);
                    } else if i < seen.len() {
                        assert(longer[i] == seen[i]);
                        assert(seen[i].timestamp <= seen[seen.len() - 1].timestamp);
                    }
                }
                assert forall|i: int| 0 <= i < longer.len() implies (#[trigger] longer[i]).offset
                    == next + i by {
                    if i < seen.len() {
                        assert(longer[i] == seen[i]);
                    }
                }
                if seen.len() > 0 {
                    assert(longer[0] == seen[0]);
                }
                assert(self.messages@.push(message).map_values(
                    |message: RetainedMessage| message@,
                ) =~= self.retained().push(message@));
                assert(before + longer =~= (before + seen).push(message@));
            }
            newest = message.timestamp;
            self.messages.push(message);
            taken = taken + 1;
        }
        proof {
            assert(records.take(taken as int) =~= records);
        }
        Some(newest)
    }

    /// Rebuilds a partition from its stored segments, oldest first, as at
    /// startup. Each log is read up to its last whole record; what follows
    /// is left out. The segments must hold one unbroken range of offsets
    /// with timestamps that never run backwards, and none but the last may
    /// be empty. The last segment becomes the active one.
    pub fn restore(partition_id: u32, limits: SegmentLimits, stored: &Vec<StoredSegment>) -> (result:
        Result<Partition, IggyError>)
        ensures
            match result {
                Ok(partition) => {
                    &&& restorable(stored@)
                    &&& partition.wf()
                    &&& partition.id() == partition_id
                    &&& partition.limits() == limits
                    &&& partition.holds(stored@)
                },
                Err(error) => !restorable(stored@) && error == IggyError::CannotReadMessage,
            },
    {
        if stored.len() == 0 {
            return Err(IggyError::CannotReadMessage);
        }
        let first = stored[0].base_offset;
        let mut partition = Partition {
            partition_id,
            limits,
            segments: Vec::new(),
            messages: Vec::new(),
        };
        let mut next: u64 = first;
        let mut floor: u64 = 0;
        let mut index: usize = 0;
        proof {
            assert(partition.retained() =~= Seq::<MessageRecord>::empty());
            lemma_rebuilt_start(stored@);
        }
        while index < stored.len()
            invariant
                index <= stored@.len(),
                stored@.len() >= 1,
                first == stored@[0].base_offset,
                partition.partition_id == partition_id,
                partition.limits == limits,
                restorable(stored@) == continues(stored@, index as int, next as nat, floor),
                rebuilt(stored@, index as int, partition.segments@, partition.retained(), next, floor),
            decreases stored@.len() - index,
        {
            let ghost segments_before = partition.segments@;
            let ghost log_before = partition.retained();
            let (messages, valid) = open_log(&stored[index].log);
            let count = messages.len() as u64;
            if stored[index].base_offset != next || count > u64::MAX - next || (index
                < stored.len() - 1 && count == 0) {
                return Err(IggyError::CannotReadMessage);
            }
            let newest = match partition.adopt(messages, next, floor) {
                Some(newest) => newest,
                None => {
                    return Err(IggyError::CannotReadMessage);
                },
            };
            partition.segments.push(
                Segment {
                    base_offset: next,
                    message_count: count,
                    size_bytes: valid as u64,
                    max_timestamp: newest,
                    is_closed: index < stored.len() - 1,
                },
            );
            proof {
                lemma_rebuilt_step(
                    stored@,
                    index as int,
                    segments_before,
                    log_before,
                    next,
                    floor,
                    partition.segments@,
                    partition.retained(),
                );
            }
            next = next + count;
            floor = newest;
            index = index + 1;
        }
        proof {
            lemma_rebuilt_is_well_formed(stored@, &partition, next, floor);
        }
        Ok(partition)
    }
}

/// What holds of the segments and the log rebuilt from the first `done`
/// stored segments, when the log's next offset is `next` and its newest
/// timestamp is `floor`.
#[verifier::opaque]
pub closed spec fn rebuilt(
    stored: Seq<StoredSegment>,
    done: int,
    segments: Seq<Segment>,
    log: Seq<MessageRecord>,
    next: u64,
    floor: u64,
) -> bool {
    let first = stored[0].base_offset;
    &&& 0 <= done <= stored.len()
    &&& segments.len() == done
    &&& first <= next
    &&& log.len() == next - first
    &&& log_is_dense(log, first as nat)
    &&& forall|i: int| 0 <= i < log.len() ==> (#[trigger] log[i]).timestamp <= floor
    &&& done == 0 ==> next == first && floor == 0
    &&& done > 0 ==> segments[done - 1].end() == next && segments[done - 1].max_timestamp == floor
    &&& forall|k: int|
        0 <= k < done ==> {
            &&& (#[trigger] segments[k]).base_offset == stored[k].base_offset
            &&& segments[k].base_offset + segments[k].message_count <= u64::MAX
            &&& segments[k].message_count == scan(contents(stored[k].log)).len()
            &&& segments[k].size_bytes == valid_length(contents(stored[k].log))
            &&& segments[k].is_closed == (k < stored.len() - 1)
            &&& k < stored.len() - 1 ==> segments[k].message_count > 0
            &&& first <= segments[k].base_offset
            &&& segments[k].end() <= next
            &&& log.subrange(segments[k].base_offset - first, segments[k].end() - first) == scan(
                contents(stored[k].log),
            )
            &&& segments[k].message_count > 0 ==> segments[k].max_timestamp == log[segments[k].end()
                - 1 - first].timestamp
        }
    &&& forall|k: int|
        0 <= k < done - 1 ==> (#[trigger] segments[k]).end() == segments[k + 1].base_offset
            && segments[k].max_timestamp <= segments[k + 1].max_timestamp
}

/// Nothing rebuilt yet is a log that begins at the first stored segment.
proof fn lemma_rebuilt_start(stored: Seq<StoredSegment>)
    requires
        stored.len() >= 1,
    ensures
        rebuilt(
            stored,
            0,
            Seq::<Segment>::empty(),
            Seq::<MessageRecord>::empty(),
            stored[0].base_offset,
            0,
        ),
{
    reveal(rebuilt);
}

/// Adopting one more stored segment keeps what holds of the rebuilt
/// partition.
proof fn lemma_rebuilt_step(
    stored: Seq<StoredSegment>,
    done: int,
    segments: Seq<Segment>,
    log: Seq<MessageRecord>,
    next: u64,
    floor: u64,
    segments_after: Seq<Segment>,
    log_after: Seq<MessageRecord>,
)
    requires
        rebuilt(stored, done, segments, log, next, floor),
        done < stored.len(),
        stored[done].base_offset == next,
        ({
            let records = scan(contents(stored[done].log));
            &&& follows(records, next as nat, floor)
            &&& next + records.len() <= u64::MAX
            &&& done < stored.len() - 1 ==> records.len() > 0
            &&& log_after == log + records
            &&& segments_after == segments.push(
                Segment {
                    base_offset: next,
                    message_count: records.len() as u64,
                    size_bytes: valid_length(contents(stored[done].log)) as u64,
                    max_timestamp: newest_stamp(records, floor),
                    is_closed: done < stored.len() - 1,
                },
            )
            &&& valid_length(contents(stored[done].log)) <= u64::MAX
        }),
    ensures
        rebuilt(
            stored,
            done + 1,
            segments_after,
            log_after,
            (next + scan(contents(stored[done].log)).len()) as u64,
            newest_stamp(scan(contents(stored[done].log)), floor),
        ),
{
    reveal(rebuilt);
    let first = stored[0].base_offset;
    let records = scan(contents(stored[done].log));
    let next_after = (next + records.len()) as u64;
    let floor_after = newest_stamp(records, floor);
    assert forall|i: int| 0 <= i < log_after.len() implies (#[trigger] log_after[i]).offset
        == first + i && log_after[i].timestamp <= floor_after by {
        if i < log.len() {
            assert(log_after[i] == log[i]);
            if records.len() > 0 {
                assert(records[0].timestamp <= records[records.len() - 1].timestamp);
            }
        } else {
            assert(log_after[i] == records[i - log.len()]);
            assert(records[i - log.len()].timestamp <= records[records.len() - 1].timestamp);
        }
    }
    assert forall|i: int, j: int| 0 <= i <= j < log_after.len() implies (
    #[trigger] log_after[i]).timestamp <= (#[trigger] log_after[j]).timestamp by {
        if j < log.len() {
            assert(log_after[i] == log[i] && log_after[j] == log[j]);
        } else if i < log.len() {
            assert(log_after[i] == log[i]);
            assert(log_after[j] == records[j - log.len()]);
            assert(records[0].timestamp <= records[j - log.len()].timestamp);
        } else {
            assert(log_after[i] == records[i - log.len()]);
            assert(log_after[j] == records[j - log.len()]);
        }
    }
    assert forall|k: int| 0 <= k < done + 1 implies {
        &&& (#[trigger] segments_after[k]).base_offset == stored[k].base_offset
        &&& segments_after[k].base_offset + segments_after[k].message_count <= u64::MAX
        &&& segments_after[k].message_count == scan(contents(stored[k].log)).len()
        &&& segments_after[k].size_bytes == valid_length(contents(stored[k].log))
        &&& segments_after[k].is_closed == (k < stored.len() - 1)
        &&& k < stored.len() - 1 ==> segments_after[k].message_count > 0
        &&& first <= segments_after[k].base_offset
        &&& segments_after[k].end() <= next_after
        &&& log_after.subrange(
            segments_after[k].base_offset - first,
            segments_after[k].end() - first,
        ) == scan(contents(stored[k].log))
        &&& segments_after[k].message_count > 0 ==> segments_after[k].max_timestamp
            == log_after[segments_after[k].end() - 1 - first].timestamp
    } by {
        if k < done {
            assert(segments_after[k] == segments[k]);
            assert(log_after.subrange(segments[k].base_offset - first, segments[k].end() - first)
                =~= log.subrange(segments[k].base_offset - first, segments[k].end() - first));
            if segments[k].message_count > 0 {
                assert(log_after[segments[k].end() - 1 - first] == log[segments[k].end() - 1
                    - first]);
            }
        } else {
            assert(log_after.subrange(next - first, next_after - first) =~= records);
            if records.len() > 0 {
                assert(log_after[next_after - 1 - first] == records[records.len() - 1]);
            }
        }
    }
    assert forall|k: int| 0 <= k < done implies (#[trigger] segments_after[k]).end()
        == segments_after[k + 1].base_offset && segments_after[k].max_timestamp
        <= segments_after[k + 1].max_timestamp by {
        assert(segments_after[k] == segments[k]);
        if k < done - 1 {
            assert(segments_after[k + 1] == segments[k + 1]);
        } else {
            if records.len() > 0 {
                assert(records[0].timestamp <= records[records.len() - 1].timestamp);
            }
        }
    }
}

/// A partition rebuilt from all stored segments is well formed and holds
/// what they hold.
proof fn lemma_rebuilt_is_well_formed(
    stored: Seq<StoredSegment>,
    partition: &Partition,
    next: u64,
    floor: u64,
)
    requires
        stored.len() >= 1,
        rebuilt(
            stored,
            stored.len() as int,
            partition.segments(),
            partition.retained(),
            next,
            floor,
        ),
    ensures
        partition.wf(),
        partition.holds(stored),
{
    reveal(Partition::log_matches);
    reveal(rebuilt);
    let segments = partition.segments();
    assert(segments_chain(segments));
    assert(segments[0].base_offset == stored[0].base_offset);
    assert(segments.last() == segments[segments.len() - 1]);
}

} // verus!

verus! {

impl Partition {
    /// Whether `stored` is what this partition keeps on disk: for each
    /// segment its base offset and a log that begins with the bytes of the
    /// segment's records, behind which at most a record that was cut short
    /// may stand.
    pub open spec fn is_stored_as(&self, stored: Seq<StoredSegment>) -> bool {
        &&& stored.len() == self.segments().len()
        &&& forall|k: int|
            0 <= k < stored.len() ==> {
                let written = log_bytes(self.segment_records(k));
                let log = contents((#[trigger] stored[k]).log);
                &&& stored[k].base_offset == self.segments()[k].base_offset
                &&& written.len() <= log.len()
                &&& log.take(written.len() as int) == written
                &&& first_record(log.skip(written.len() as int)) is None
            }
    }
}

impl Partition {
    /// Appends the log of the segment at `index` to `buffer`: the records
    /// of its messages, in order.
    pub fn write_segment(&self, index: usize, buffer: &mut BytesMut)
        requires
            self.wf(),
            index < self.segments().len(),
        ensures
            written(*final(buffer)) == written(*old(buffer)) + log_bytes(
                self.segment_records(index as int),
            ),
    {
        proof {
            lemma_chain_is_ordered(self.segments(), 0, index as int);
            lemma_chain_is_ordered(self.segments(), index as int, self.segments().len() - 1);
        }
        let held = self.messages.len();
        assert(self.retained().len() == held);
        let first = self.segments[0].base_offset;
        let segment = self.segments[index];
        let begin = (segment.base_offset - first) as usize;
        let end = (segment.base_offset + segment.message_count - first) as usize;
        let messages = self.read_range(begin, end);
        write_log(&messages, buffer);
    }
}

/// What the stored log of a segment reads as: the segment's records, byte
/// for byte.
proof fn lemma_stored_segment(partition: &Partition, stored: Seq<StoredSegment>, index: int)
    requires
        partition.wf(),
        all_fit(partition.retained()),
        partition.is_stored_as(stored),
        0 <= index < stored.len(),
    ensures
        scan(contents(stored[index].log)) == normalized(partition.segment_records(index)),
        partition.segment_records(index).len() == partition.segments()[index].message_count,
        0 <= partition.segments()[index].base_offset - partition.first_offset(),
        partition.segments()[index].end() <= partition.next_offset(),
{
    partition.lemma_invariant();
    let segments = partition.segments();
    lemma_chain_is_ordered(segments, 0, index);
    lemma_chain_is_ordered(segments, index, segments.len() - 1);
    let records = partition.segment_records(index);
    let log = contents(stored[index].log);
    let written = log_bytes(records);
    assert forall|i: int| 0 <= i < records.len() implies (#[trigger] records[i]).size()
        <= u32::MAX by {
        assert(records[i] == partition.retained()[segments[index].base_offset
            - partition.first_offset() + i]);
    }
    assert(stored[index].base_offset == segments[index].base_offset);
    lemma_scan_any_torn_log(records, log.skip(written.len() as int));
    assert(log =~= written + log.skip(written.len() as int));
}

/// The timestamp of the newest message before the segment at `index`;
/// 0 before the first segment.
spec fn stamp_before(partition: &Partition, index: int) -> u64 {
    if index <= 0 {
        0
    } else {
        partition.retained()[partition.segments()[index].base_offset - partition.first_offset()
            - 1].timestamp
    }
}

/// The stored segments of a partition continue one another.
proof fn lemma_stored_continues(partition: &Partition, stored: Seq<StoredSegment>, index: int)
    requires
        partition.wf(),
        all_fit(partition.retained()),
        partition.is_stored_as(stored),
        0 <= index <= stored.len(),
    ensures
        index < stored.len() ==> continues(
            stored,
            index,
            partition.segments()[index].base_offset as nat,
            stamp_before(partition, index),
        ),
    decreases stored.len() - index,
{
    if index < stored.len() {
        partition.lemma_invariant();
        let segments = partition.segments();
        let log = partition.retained();
        let first = partition.first_offset();
        let base = segments[index].base_offset;
        let records = partition.segment_records(index);
        let read = scan(contents(stored[index].log));
        lemma_stored_segment(partition, stored, index);
        lemma_chain_is_ordered(segments, 0, index);
        lemma_chain_is_ordered(segments, index, segments.len() - 1);
        assert forall|i: int| 0 <= i < read.len() implies (#[trigger] read[i]).offset == base + i
            && read[i].timestamp == log[base - first + i].timestamp by {
            assert(read[i] == records[i].normalized());
            assert(records[i] == log[base - first + i]);
        }
        assert forall|i: int, j: int| 0 <= i <= j < read.len() implies (
        #[trigger] read[i]).timestamp <= (#[trigger] read[j]).timestamp by {
            assert(log[base - first + i].timestamp <= log[base - first + j].timestamp);
        }
        if read.len() > 0 && index > 0 {
            assert(segments[index - 1].end() == base);
            assert(segments[index - 1].message_count > 0);
            lemma_chain_is_ordered(segments, 0, index - 1);
            assert(log[base - first - 1].timestamp <= log[base - first].timestamp);
        }
        assert(follows(read, base as nat, stamp_before(partition, index)));
        assert(stored[index].base_offset == base);
        assert(read.len() == records.len());
        assert(read.len() == segments[index].message_count);
        assert(base + read.len() <= u64::MAX);
        if index < stored.len() - 1 {
            assert(segments[index].end() == segments[index + 1].base_offset);
            assert(segments[index].message_count > 0);
            assert(newest_stamp(read, stamp_before(partition, index)) == stamp_before(
                partition,
                index + 1,
            )) by {
                assert(read.last() == read[read.len() - 1]);
            }
            lemma_stored_continues(partition, stored, index + 1);
            assert(segments[index + 1].base_offset == base + read.len());
        } else {
            assert(continues(
                stored,
                index + 1,
                (base + read.len()) as nat,
                newest_stamp(read, stamp_before(partition, index)),
            ));
        }
    }
}

/// Durability: a partition comes back from what it keeps on disk. Its
/// stored segments can be restored, and whatever holds them has the
/// partition's first and next offset and, segment for segment and offset
/// for offset, its messages byte for byte; headers of no bytes come back
/// as no headers. A record that a crash cut short behind the last whole
/// one changes nothing.
pub proof fn lemma_restart(before: &Partition, stored: Seq<StoredSegment>, after: &Partition)
    requires
        before.wf(),
        all_fit(before.retained()),
        before.is_stored_as(stored),
        after.wf(),
        after.holds(stored),
    ensures
        restorable(stored),
        after.first_offset() == before.first_offset(),
        after.next_offset() == before.next_offset(),
        forall|k: int|
            0 <= k < stored.len() ==> #[trigger] after.segment_records(k) == normalized(
                before.segment_records(k),
            ),
        forall|k: int|
            0 <= k < stored.len() ==> log_bytes(#[trigger] after.segment_records(k)) == log_bytes(
                before.segment_records(k),
            ),
{
    before.lemma_invariant();
    lemma_stored_continues(before, stored, 0);
    let last = stored.len() - 1;
    assert(after.segments()[0].base_offset == stored[0].base_offset);
    assert(after.segments()[last].base_offset == stored[last].base_offset);
    lemma_stored_segment(before, stored, last);
    assert(after.segments().last() == after.segments()[last]);
    assert(before.segments().last() == before.segments()[last]);
    assert forall|k: int| 0 <= k < stored.len() implies #[trigger] after.segment_records(k)
        == normalized(before.segment_records(k)) && log_bytes(after.segment_records(k))
        == log_bytes(before.segment_records(k)) by {
        lemma_stored_segment(before, stored, k);
        assert(after.segments()[k].base_offset == stored[k].base_offset);
        let records = before.segment_records(k);
        assert forall|i: int| 0 <= i < records.len() implies (#[trigger] records[i]).size()
            <= u32::MAX by {
            lemma_chain_is_ordered(before.segments(), 0, k);
            lemma_chain_is_ordered(before.segments(), k, before.segments().len() - 1);
            assert(records[i] == before.retained()[before.segments()[k].base_offset
                - before.first_offset() + i]);
        }
        crate::segment_log::lemma_scan_any_log(records);
    }
}

} // verus!
