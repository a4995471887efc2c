//! A topic: a fixed number of partitions, the rule that routes a batch to
//! one of them, and the retention policy they share.
//!
//! A messages key is routed by its CRC-32: the partition's id is the
//! checksum modulo the number of partitions, plus one. The same key goes
//! to the same partition for as long as the topic has as many partitions.

use crate::checksum;
use crate::checksum::crc32;
use crate::error::IggyError;
use crate::commands::PollingStrategy;
use crate::consumer_group::{is_ascending, ConsumerGroup};
use crate::message::{Message, MessageRecord, PolledMessages};
use crate::partition::{
    drop_count, is_expired, lemma_retention_bound, over_budget, AssignedRange, Partition,
    SegmentLimits,
};
use crate::partitioning::{Partitioning, PartitioningKind, PartitioningValue};
use vstd::bytes::{spec_u32_from_le_bytes, u32_from_le_bytes};
use vstd::prelude::*;
use vstd::string::StringSliceAdditionalSpecFns;

verus! {

/// Where a batch goes and where the next balanced batch will go: the
/// partition's id, and the round-robin cursor afterwards.
pub open spec fn route_of(partitioning: PartitioningValue, partitions: u32, cursor: u32) -> Result<
    (u32, u32),
    IggyError,
> {
    if !partitioning.is_valid() {
        Err(IggyError::InvalidPartitioning)
    } else {
        match partitioning.kind {
            PartitioningKind::Balanced => Ok(
                (
                    cursor,
                    if cursor >= partitions {
                        1
                    } else {
                        (cursor + 1) as u32
                    },
                ),
            ),
            PartitioningKind::PartitionId => {
                let partition_id = spec_u32_from_le_bytes(partitioning.value);
                if 1 <= partition_id <= partitions {
                    Ok((partition_id, cursor))
                } else {
                    Err(IggyError::PartitionNotFound)
                }
            },
            PartitioningKind::MessagesKey => Ok(
                ((crc32(partitioning.value) % partitions + 1) as u32, cursor),
            ),
        }
    }
}

/// Routes a batch among `partitions` partitions, with the round-robin
/// cursor at `cursor`.
pub fn route(partitioning: &Partitioning, partitions: u32, cursor: u32) -> (result: Result<
    (u32, u32),
    IggyError,
>)
    requires
        1 <= cursor <= partitions,
    ensures
        result == route_of(partitioning@, partitions, cursor),
        result is Ok ==> 1 <= result.unwrap().0 <= partitions && 1 <= result.unwrap().1
            <= partitions,
{
    match partitioning.validate() {
        Ok(()) => {},
        Err(error) => {
            return Err(error);
        },
    }
    match partitioning.kind {
        PartitioningKind::Balanced => {
            let next = if cursor >= partitions {
                1
            } else {
                cursor + 1
            };
            Ok((cursor, next))
        },
        PartitioningKind::PartitionId => {
            let partition_id = u32_from_le_bytes(partitioning.value.as_slice());
            if 1 <= partition_id && partition_id <= partitions {
                Ok((partition_id, cursor))
            } else {
                Err(IggyError::PartitionNotFound)
            }
        },
        PartitioningKind::MessagesKey => {
            let hash = checksum::calculate(partitioning.value.as_slice());
            Ok((hash % partitions + 1, cursor))
        },
    }
}

} // verus!

verus! {

/// A topic and its partitions.
#[derive(Debug)]
pub struct Topic {
    topic_id: u32,
    name: Vec<u8>,
    partitions: Vec<Partition>,
    cursor: u32,
    message_expiry: Option<u64>,
    max_size: Option<u64>,
}

/// Whether `after` is `before` with the partition at `index` replaced and
/// every other partition as it was.
pub open spec fn only_changed(before: Seq<Partition>, after: Seq<Partition>, index: int) -> bool {
    &&& after.len() == before.len()
    &&& forall|i: int| 0 <= i < before.len() && i != index ==> after[i] == before[i]
}

impl Topic {
    /// The topic's id within its stream.
    pub closed spec fn id(&self) -> u32 {
        self.topic_id
    }

    /// The topic's name.
    pub closed spec fn name(&self) -> Seq<u8> {
        self.name@
    }

    /// The topic's partitions; the partition with id `p` stands at index
    /// `p - 1`.
    pub closed spec fn partitions(&self) -> Seq<Partition> {
        self.partitions@
    }

    /// The partition that the next balanced batch goes to.
    pub closed spec fn cursor(&self) -> u32 {
        self.cursor
    }

    /// The age, in microseconds, at which messages expire, if they do.
    pub closed spec fn message_expiry(&self) -> Option<u64> {
        self.message_expiry
    }

    /// The most bytes that a partition's closed segments may hold, if
    /// there is a limit.
    pub closed spec fn max_size(&self) -> Option<u64> {
        self.max_size
    }

    /// The invariant of a topic: its partitions are well formed and
    /// numbered from 1 in order, and the cursor points at one of them.
    pub open spec fn wf(&self) -> bool {
        &&& self.partitions().len() <= u32::MAX
        &&& 1 <= self.cursor()
        &&& self.cursor() <= self.partitions().len() || self.cursor() == 1
        &&& 1 <= self.name().len() <= 255
        &&& forall|i: int|
            0 <= i < self.partitions().len() ==> (#[trigger] self.partitions()[i]).wf()
                && self.partitions()[i].id() == i + 1
    }

    /// Whether `after` differs from this topic in nothing but its
    /// partitions and its cursor.
    pub open spec fn same_settings(&self, after: &Topic) -> bool {
        &&& after.id() == self.id()
        &&& after.name() == self.name()
        &&& after.message_expiry() == self.message_expiry()
        &&& after.max_size() == self.max_size()
    }

    /// A topic of `partitions_count` empty partitions. The name must have
    /// between 1 and 255 bytes.
    pub fn new(
        topic_id: u32,
        name: &str,
        partitions_count: u32,
        limits: SegmentLimits,
        message_expiry: Option<u64>,
        max_size: Option<u64>,
    ) -> (result: Result<Topic, IggyError>)
        ensures
            match result {
                Ok(topic) => {
                    &&& topic.wf()
                    &&& 1 <= name.spec_bytes().len() <= 255
                    &&& topic.id() == topic_id
                    &&& topic.name() == name.spec_bytes()
                    &&& topic.cursor() == 1
                    &&& topic.message_expiry() == message_expiry
                    &&& topic.max_size() == max_size
                    &&& topic.partitions().len() == partitions_count
                    &&& forall|i: int|
                        0 <= i < partitions_count ==> {
                            &&& (#[trigger] topic.partitions()[i]).next_offset() == 0
                            &&& topic.partitions()[i].first_offset() == 0
                            &&& topic.partitions()[i].limits() == limits
                        }
                },
                Err(error) => !(1 <= name.spec_bytes().len() <= 255) && error
                    == IggyError::InvalidIdentifier,
            },
    {
        let bytes = name.as_bytes();
        if bytes.len() < 1 || bytes.len() > 255 {
            return Err(IggyError::InvalidIdentifier);
        }
        let mut partitions: Vec<Partition> = Vec::new();
        let mut made: u32 = 0;
        while made < partitions_count
            invariant
                made <= partitions_count,
                partitions@.len() == made,
                forall|i: int|
                    0 <= i < made ==> {
                        &&& (#[trigger] partitions@[i]).wf()
                        &&& partitions@[i].id() == i + 1
                        &&& partitions@[i].next_offset() == 0
                        &&& partitions@[i].first_offset() == 0
                        &&& partitions@[i].limits() == limits
                    },
            decreases partitions_count - made,
        {
            made = made + 1;
            partitions.push(Partition::new(made, limits));
        }
        Ok(
            Topic {
                topic_id,
                name: vstd::slice::slice_to_vec(bytes),
                partitions,
                cursor: 1,
                message_expiry,
                max_size,
            },
        )
    }

    /// Returns the topic's id.
    pub fn topic_id(&self) -> (id: u32)
        ensures
            id == self.id(),
    {
        self.topic_id
    }

    /// Returns the topic's name.
    pub fn get_name(&self) -> (name: &Vec<u8>)
        ensures
            name@ == self.name(),
    {
        &self.name
    }

    /// Returns the number of partitions.
    pub fn partitions_count(&self) -> (count: u32)
        requires
            self.wf(),
        ensures
            count == self.partitions().len(),
    {
        self.partitions.len() as u32
    }

    /// Returns the partition with id `partition_id`.
    pub fn get_partition(&self, partition_id: u32) -> (result: Result<&Partition, IggyError>)
        requires
            self.wf(),
        ensures
            match result {
                Ok(partition) => 1 <= partition_id <= self.partitions().len() && *partition
                    == self.partitions()[partition_id - 1] && partition.wf(),
                Err(error) => !(1 <= partition_id <= self.partitions().len()) && error
                    == IggyError::PartitionNotFound,
            },
    {
        if partition_id < 1 || partition_id as usize > self.partitions.len() {
            Err(IggyError::PartitionNotFound)
        } else {
            Ok(&self.partitions[(partition_id - 1) as usize])
        }
    }
}

} // verus!

verus! {

impl Topic {
    /// What an append comes to: the partition it goes to, or why it is
    /// refused. A batch is refused when its partitioning is invalid or
    /// names no partition of the topic, when the topic has no partitions,
    /// or when the partition it is routed to refuses it.
    pub open spec fn append_target(
        &self,
        partitioning: PartitioningValue,
        messages: Seq<Message>,
    ) -> Result<u32, IggyError> {
        if self.partitions().len() == 0 {
            Err(IggyError::PartitionNotFound)
        } else {
            match route_of(partitioning, self.partitions().len() as u32, self.cursor()) {
                Err(error) => Err(error),
                Ok((partition_id, _)) => match self.partitions()[partition_id - 1].refusal(
                    messages,
                ) {
                    Some(error) => Err(error),
                    None => Ok(partition_id),
                },
            }
        }
    }

    /// Whether `after` and `result` are what an append of `messages` at
    /// `now` makes of this topic: on success the batch is in the partition
    /// that the partitioning selects, the cursor has moved as the route
    /// says, and nothing else has changed; on failure nothing has changed.
    pub open spec fn appended(
        &self,
        partitioning: PartitioningValue,
        messages: Seq<Message>,
        now: u64,
        after: &Topic,
        result: Result<(u32, AssignedRange), IggyError>,
    ) -> bool {
        &&& self.same_settings(after)
        &&& match result {
            Ok((partition_id, range)) => {
                &&& self.append_target(partitioning, messages) == Ok::<u32, IggyError>(
                    partition_id,
                )
                &&& 1 <= partition_id <= self.partitions().len()
                &&& only_changed(self.partitions(), after.partitions(), partition_id - 1)
                &&& self.partitions()[partition_id - 1].appended(
                    messages,
                    now,
                    &after.partitions()[partition_id - 1],
                    range,
                )
                &&& route_of(partitioning, self.partitions().len() as u32, self.cursor()) == Ok::<
                    (u32, u32),
                    IggyError,
                >((partition_id, after.cursor()))
            },
            Err(error) => {
                &&& self.append_target(partitioning, messages) == Err::<u32, IggyError>(error)
                &&& after.partitions() == self.partitions()
                &&& after.cursor() == self.cursor()
            },
        }
    }

    /// Appends a batch received at `now` to the partition that its
    /// partitioning selects. Returns that partition's id and the offsets
    /// assigned. A balanced batch moves the round-robin cursor on; a
    /// refused batch changes nothing.
    pub fn append_messages(
        &mut self,
        partitioning: &Partitioning,
        messages: Vec<Message>,
        now: u64,
    ) -> (result: Result<(u32, AssignedRange), IggyError>)
        requires
            old(self).wf(),
        ensures
            final(self).wf(),
            old(self).appended(partitioning@, messages@, now, final(self), result),
    {
        if self.partitions.len() == 0 {
            return Err(IggyError::PartitionNotFound);
        }
        let count = self.partitions.len() as u32;
        let (partition_id, cursor) = match route(partitioning, count, self.cursor) {
            Ok(routed) => routed,
            Err(error) => {
                return Err(error);
            },
        };
        let index = (partition_id - 1) as usize;
        let ghost before = self.partitions@;
        assert(before[index as int].wf());
        let range = match self.partitions[index].append(messages, now) {
            Ok(range) => range,
            Err(error) => {
                proof {
                    assert(self.partitions@ =~= before);
                }
                return Err(error);
            },
        };
        self.cursor = cursor;
        proof {
            assert forall|i: int| 0 <= i < self.partitions@.len() implies (
            #[trigger] self.partitions@[i]).wf() && self.partitions@[i].id() == i + 1 by {
                if i != index {
                    assert(self.partitions@[i] == before[i]);
                }
            }
        }
        Ok((partition_id, range))
    }
}

} // verus!

verus! {

impl Topic {
    /// The records that a poll of partition `partition_id` reads.
    pub open spec fn poll_records(
        &self,
        partition_id: u32,
        strategy: PollingStrategy,
        count: u32,
        committed: Option<u64>,
    ) -> Seq<MessageRecord> {
        let partition = self.partitions()[partition_id - 1];
        partition.polled(partition.start_offset(strategy, committed), count)
    }

    /// Whether `result` is what a poll of partition `partition_id` gives:
    /// the records that the poll reads, as they are handed to a consumer,
    /// with the partition's id and current offset; or an error, when the
    /// topic has no such partition or stored bytes cannot be read.
    pub open spec fn polled(
        &self,
        partition_id: u32,
        strategy: PollingStrategy,
        count: u32,
        committed: Option<u64>,
        result: Result<PolledMessages, IggyError>,
    ) -> bool {
        match result {
            Ok(polled) => {
                &&& 1 <= partition_id <= self.partitions().len()
                &&& polled.partition_id == partition_id
                &&& polled.current_offset == if self.partitions()[partition_id - 1].next_offset()
                    == 0 {
                    0
                } else {
                    self.partitions()[partition_id - 1].next_offset() - 1
                }
                &&& crate::message::delivers(
                    self.poll_records(partition_id, strategy, count, committed),
                    polled.messages@,
                )
            },
            Err(error) => if 1 <= partition_id <= self.partitions().len() {
                !crate::message::all_deliverable(
                    self.poll_records(partition_id, strategy, count, committed),
                ) && error == IggyError::CannotReadMessage
            } else {
                error == IggyError::PartitionNotFound
            },
        }
    }

    /// Polls up to `count` messages from a partition, starting where the
    /// strategy says. `committed` is the offset last committed for the
    /// polling consumer, which only the strategy `Next` looks at. The
    /// answer carries the partition's current offset.
    pub fn poll_messages(
        &self,
        partition_id: u32,
        strategy: PollingStrategy,
        count: u32,
        committed: Option<u64>,
    ) -> (result: Result<PolledMessages, IggyError>)
        requires
            self.wf(),
        ensures
            self.polled(partition_id, strategy, count, committed, result),
    {
        let partition = match self.get_partition(partition_id) {
            Ok(partition) => partition,
            Err(error) => {
                return Err(error);
            },
        };
        let start = partition.resolve_start(strategy, committed);
        let retained = partition.poll(start, count);
        let messages = match crate::message::to_polled_messages(&retained) {
            Ok(messages) => messages,
            Err(error) => {
                return Err(error);
            },
        };
        Ok(PolledMessages { partition_id, current_offset: partition.current_offset(), messages })
    }

    /// Whether `after` is this topic after retention ran at `now`: every
    /// partition has lost the segments that the policy drops, and nothing
    /// else has changed.
    pub open spec fn retention_applied(&self, now: u64, after: &Topic) -> bool {
        &&& self.same_settings(after)
        &&& after.cursor() == self.cursor()
        &&& after.partitions().len() == self.partitions().len()
        &&& forall|i: int|
            0 <= i < self.partitions().len() ==> (#[trigger] self.partitions()[i]).trimmed(
                drop_count(
                    self.partitions()[i].segments(),
                    now,
                    self.message_expiry(),
                    self.max_size(),
                ),
                &after.partitions()[i],
            )
    }

    /// Applies the topic's retention policy to every partition at `now`.
    /// Returns the number of segments dropped from each partition.
    /// Afterwards the closed segments of each partition hold no more than
    /// the size limit and none of them is expired.
    pub fn apply_retention(&mut self, now: u64) -> (dropped: Vec<usize>)
        requires
            old(self).wf(),
        ensures
            final(self).wf(),
            old(self).retention_applied(now, final(self)),
            dropped@.len() == old(self).partitions().len(),
            forall|i: int|
                0 <= i < old(self).partitions().len() ==> #[trigger] dropped@[i] == drop_count(
                    old(self).partitions()[i].segments(),
                    now,
                    old(self).message_expiry(),
                    old(self).max_size(),
                ),
    {
        let mut dropped: Vec<usize> = Vec::new();
        let mut index: usize = 0;
        let ghost before = self.partitions@;
        while index < self.partitions.len()
            invariant
                index <= self.partitions@.len(),
                self.partitions@.len() == before.len(),
                before.len() <= u32::MAX,
                self.topic_id == old(self).topic_id,
                self.name == old(self).name,
                self.cursor == old(self).cursor,
                self.message_expiry == old(self).message_expiry,
                self.max_size == old(self).max_size,
                before == old(self).partitions(),
                forall|i: int|
                    0 <= i < before.len() ==> (#[trigger] self.partitions@[i]).wf()
                        && self.partitions@[i].id() == i + 1,
                forall|i: int| index <= i < before.len() ==> self.partitions@[i] == before[i],
                dropped@.len() == index,
                forall|i: int|
                    0 <= i < index ==> #[trigger] dropped@[i] == drop_count(
                        before[i].segments(),
                        now,
                        self.message_expiry,
                        self.max_size,
                    ),
                forall|i: int|
                    0 <= i < index ==> (#[trigger] before[i]).trimmed(
                        drop_count(before[i].segments(), now, self.message_expiry, self.max_size),
                        &self.partitions@[i],
                    ),
            decreases self.partitions@.len() - index,
        {
            let ghost previous = self.partitions@;
            let expiry = self.message_expiry;
            let max_size = self.max_size;
            assert(previous[index as int].wf());
            let gone = self.partitions[index].apply_retention(now, expiry, max_size);
            proof {
                assert forall|i: int| 0 <= i < before.len() implies (
                #[trigger] self.partitions@[i]).wf() && self.partitions@[i].id() == i + 1 by {
                    if i != index {
                        assert(self.partitions@[i] == previous[i]);
                    }
                }
                assert forall|i: int| 0 <= i < index + 1 implies (#[trigger] before[i]).trimmed(
                    drop_count(before[i].segments(), now, self.message_expiry, self.max_size),
                    &self.partitions@[i],
                ) by {
                    if i != index {
                        assert(self.partitions@[i] == previous[i]);
                    }
                }
            }
            dropped.push(gone);
            index = index + 1;
        }
        dropped
    }
}

} // verus!

verus! {

/// The offset committed for a partition after a group poll that read
/// `records` from it: the offset of the last record when the poll commits
/// and read any, the offset committed before otherwise.
pub open spec fn advanced(before: Option<u64>, records: Seq<MessageRecord>, auto_commit: bool) -> Option<
    u64,
> {
    if auto_commit && records.len() > 0 {
        Some(records.last().offset)
    } else {
        before
    }
}

/// Whether one of the batches comes from partition `partition_id`.
pub open spec fn has_batch(batches: Seq<PolledMessages>, partition_id: u32) -> bool {
    exists|k: int| 0 <= k < batches.len() && (#[trigger] batches[k]).partition_id == partition_id
}

impl Topic {
    /// The records that a group poll reads from partition `partition_id`:
    /// up to `count` of them, from behind the offset committed for it.
    pub open spec fn group_records(&self, group: &ConsumerGroup, partition_id: u32, count: u32) -> Seq<
        MessageRecord,
    > {
        self.poll_records(
            partition_id,
            PollingStrategy::Next,
            count,
            group.committed()[partition_id - 1],
        )
    }

    /// The offset committed for partition `partition_id` after a group
    /// poll by `member_id`: advanced when the member reads the partition,
    /// as it was otherwise.
    pub open spec fn committed_after(
        &self,
        group: &ConsumerGroup,
        member_id: u32,
        count: u32,
        auto_commit: bool,
        partition_id: u32,
    ) -> Option<u64> {
        if group.member_of(partition_id) == Some(member_id) {
            advanced(
                group.committed()[partition_id - 1],
                self.group_records(group, partition_id, count),
                auto_commit,
            )
        } else {
            group.committed()[partition_id - 1]
        }
    }

    /// Polls on behalf of a member of a consumer group: from each partition
    /// that the member is assigned, in ascending order of their ids, up to
    /// `count` messages from behind the offset committed for the group.
    /// With `auto_commit`, the offset of the last message read from a
    /// partition is then committed for it. A member without partitions gets
    /// no batches; a failed poll commits nothing.
    pub fn poll_group(
        &self,
        group: &mut ConsumerGroup,
        member_id: u32,
        count: u32,
        auto_commit: bool,
    ) -> (result: Result<Vec<PolledMessages>, IggyError>)
        requires
            self.wf(),
            old(group).partitions() == self.partitions().len(),
        ensures
            final(group).id() == old(group).id(),
            final(group).partitions() == old(group).partitions(),
            final(group).members() == old(group).members(),
            final(group).committed().len() == old(group).committed().len(),
            match result {
                Ok(batches) => {
                    &&& forall|k: int, l: int|
                        0 <= k < l < batches@.len() ==> (#[trigger] batches@[k]).partition_id < (
                        #[trigger] batches@[l]).partition_id
                    &&& forall|partition_id: u32|
                        #[trigger] has_batch(batches@, partition_id) <==> old(group).member_of(
                            partition_id,
                        ) == Some(member_id)
                    &&& forall|k: int|
                        0 <= k < batches@.len() ==> crate::message::delivers(
                            self.group_records(old(group), (#[trigger] batches@[k]).partition_id, count),
                            batches@[k].messages@,
                        )
                    &&& forall|partition_id: u32|
                        1 <= partition_id <= self.partitions().len() ==> final(group).committed()[
                            partition_id - 1] == #[trigger] self.committed_after(
                            old(group),
                            member_id,
                            count,
                            auto_commit,
                            partition_id,
                        )
                },
                Err(error) => {
                    &&& error == IggyError::CannotReadMessage
                    &&& final(group).committed() == old(group).committed()
                    &&& exists|partition_id: u32|
                        old(group).member_of(partition_id) == Some(member_id)
                            && !crate::message::all_deliverable(
                            #[trigger] self.group_records(old(group), partition_id, count),
                        )
                },
            },
    {
        let partitions = group.partitions_count();
        let assigned = group.get_assigned_partitions(member_id);
        let mut batches: Vec<PolledMessages> = Vec::new();
        let mut index: usize = 0;
        while index < assigned.len()
            invariant
                self.wf(),
                *group == *old(group),
                group.committed().len() == group.partitions(),
                group.partitions() == self.partitions().len(),
                index <= assigned@.len(),
                batches@.len() == index,
                is_ascending(assigned@),
                forall|partition_id: u32|
                    assigned@.contains(partition_id) <==> group.member_of(partition_id) == Some(
                        member_id,
                    ),
                forall|k: int|
                    0 <= k < index ==> (#[trigger] batches@[k]).partition_id == assigned@[k],
                forall|k: int|
                    0 <= k < index ==> crate::message::delivers(
                        self.group_records(group, assigned@[k], count),
                        (#[trigger] batches@[k]).messages@,
                    ),
            decreases assigned@.len() - index,
        {
            let partition_id = assigned[index];
            assert(assigned@.contains(partition_id));
            let committed = match group.get_committed_offset(partition_id) {
                Ok(offset) => Some(offset),
                Err(_) => None,
            };
            assert(committed == group.committed()[partition_id - 1]);
            match self.poll_messages(partition_id, PollingStrategy::Next, count, committed) {
                Ok(batch) => {
                    batches.push(batch);
                },
                Err(error) => {
                    assert(!crate::message::all_deliverable(
                        self.group_records(old(group), partition_id, count),
                    ));
                    return Err(error);
                },
            }
            index = index + 1;
        }
        if auto_commit {
            let mut done: usize = 0;
            while done < batches.len()
                invariant
                    self.wf(),
                    group.id() == old(group).id(),
                    group.partitions() == old(group).partitions(),
                    group.members() == old(group).members(),
                    group.committed().len() == old(group).committed().len(),
                    old(group).partitions() == self.partitions().len(),
                    old(group).committed().len() == old(group).partitions(),
                    done <= batches@.len(),
                    batches@.len() == assigned@.len(),
                    is_ascending(assigned@),
                    forall|partition_id: u32|
                        assigned@.contains(partition_id) <==> old(group).member_of(partition_id)
                            == Some(member_id),
                    forall|k: int|
                        0 <= k < batches@.len() ==> (#[trigger] batches@[k]).partition_id
                            == assigned@[k],
                    forall|k: int|
                        0 <= k < batches@.len() ==> crate::message::delivers(
                            self.group_records(old(group), assigned@[k], count),
                            (#[trigger] batches@[k]).messages@,
                        ),
                    forall|partition_id: u32|
                        1 <= partition_id <= self.partitions().len() ==> #[trigger] group.committed()[partition_id
                            - 1] == if exists|k: int|
                            0 <= k < done && assigned@[k] == partition_id {
                            advanced(
                                old(group).committed()[partition_id - 1],
                                self.group_records(old(group), partition_id, count),
                                true,
                            )
                        } else {
                            old(group).committed()[partition_id - 1]
                        },
                decreases batches@.len() - done,
            {
                let batch = &batches[done];
                let partition_id = batch.partition_id;
                let read = batch.messages.len();
                let ghost records = self.group_records(old(group), partition_id, count);
                let ghost committed_before = group.committed();
                assert(assigned@.contains(assigned@[done as int]));
                if read > 0 {
                    let last = batch.messages[read - 1].offset;
                    assert(records[read - 1].delivered() == Some((*batch.messages@[read - 1])@));
                    let _ = group.commit(partition_id, last);
                }
                proof {
                    assert forall|other: u32|
                        1 <= other <= self.partitions().len() implies #[trigger] group.committed()[other
                        - 1] == if exists|k: int| 0 <= k < done + 1 && assigned@[k] == other {
                        advanced(
                            old(group).committed()[other - 1],
                            self.group_records(old(group), other, count),
                            true,
                        )
                    } else {
                        old(group).committed()[other - 1]
                    } by {
                        if other == partition_id {
                            assert(assigned@[done as int] == other);
                            if exists|k: int| 0 <= k < done && assigned@[k] == other {
                                let k = choose|k: int| 0 <= k < done && assigned@[k] == other;
                                assert(assigned@[k] < assigned@[done as int]);
                            }
                        } else {
                            assert(group.committed()[other - 1] == committed_before[other - 1]);
                            if exists|k: int| 0 <= k < done + 1 && assigned@[k] == other {
                                let k = choose|k: int| 0 <= k < done + 1 && assigned@[k] == other;
                                assert(k < done);
                            }
                        }
                    }
                }
                done = done + 1;
            }
        }
        proof {
            assert forall|partition_id: u32| #[trigger]
                has_batch(batches@, partition_id) <==> old(group).member_of(partition_id) == Some(
                    member_id,
                ) by {
                if old(group).member_of(partition_id) == Some(member_id) {
                    assert(assigned@.contains(partition_id));
                    let k = choose|k: int|
                        0 <= k < assigned@.len() && assigned@[k] == partition_id;
                    assert(batches@[k].partition_id == partition_id);
                }
                if has_batch(batches@, partition_id) {
                    let k = choose|k: int|
                        0 <= k < batches@.len() && (#[trigger] batches@[k]).partition_id
                            == partition_id;
                    assert(assigned@.contains(assigned@[k]));
                }
            }
            if auto_commit {
                assert forall|partition_id: u32|
                    1 <= partition_id <= self.partitions().len() implies (old(group).member_of(
                    partition_id,
                ) == Some(member_id)) == (exists|k: int|
                    0 <= k < batches@.len() && assigned@[k] == partition_id) by {
                    if old(group).member_of(partition_id) == Some(member_id) {
                        assert(assigned@.contains(partition_id));
                        let k = choose|k: int|
                            0 <= k < assigned@.len() && assigned@[k] == partition_id;
                        assert(assigned@[k] == partition_id);
                    }
                    if exists|k: int| 0 <= k < batches@.len() && assigned@[k] == partition_id {
                        let k = choose|k: int|
                            0 <= k < batches@.len() && assigned@[k] == partition_id;
                        assert(assigned@.contains(assigned@[k]));
                    }
                }
            }
            assert forall|k: int, l: int| 0 <= k < l < batches@.len() implies (
            #[trigger] batches@[k]).partition_id < (#[trigger] batches@[l]).partition_id by {
                assert(assigned@[k] < assigned@[l]);
            }
            assert forall|k: int| 0 <= k < batches@.len() implies crate::message::delivers(
                self.group_records(old(group), (#[trigger] batches@[k]).partition_id, count),
                batches@[k].messages@,
            ) by {
                assert(batches@[k].partition_id == assigned@[k]);
            }
            assert forall|partition_id: u32|
                1 <= partition_id <= self.partitions().len() implies group.committed()[partition_id
                - 1] == #[trigger] self.committed_after(
                old(group),
                member_id,
                count,
                auto_commit,
                partition_id,
            ) by {
                if auto_commit {
                    assert((old(group).member_of(partition_id) == Some(member_id)) == (exists|
                        k: int,
                    |
                        0 <= k < batches@.len() && assigned@[k] == partition_id));
                }
            }
        }
        Ok(batches)
    }
}

} // verus!

verus! {

/// The retention bound, for every partition of a topic: once retention
/// has run, the closed segments of the partition hold no more bytes than
/// the topic's size limit and none of them is older than the topic's
/// expiry. The active segment stays, whatever its age.
pub proof fn lemma_topic_retention_bound(before: &Topic, now: u64, after: &Topic, index: int)
    requires
        before.wf(),
        before.retention_applied(now, after),
        0 <= index < before.partitions().len(),
    ensures
        ({
            let kept = after.partitions()[index].segments();
            &&& kept.len() >= 1
            &&& kept.last() == before.partitions()[index].segments().last()
            &&& !over_budget(kept, before.max_size())
            &&& forall|k: int|
                0 <= k < kept.len() - 1 ==> !is_expired(
                    #[trigger] kept[k],
                    now,
                    before.message_expiry(),
                )
        }),
{
    let partition = before.partitions()[index];
    assert(partition.wf());
    partition.lemma_invariant();
    lemma_retention_bound(partition.segments(), now, before.message_expiry(), before.max_size());
}

} // verus!
