//! The system: every stream of the broker, and the dispatch of commands
//! to the topic they address.
//!
//! No two streams share an id and no two share a name. A command names
//! its stream and its topic by identifier; the system finds them, or says
//! which of the two does not exist, and hands the command on.

use crate::commands::{FlushUnsavedBuffer, SendMessages};
use crate::error::IggyError;
use crate::http::PollRequest;
use crate::identifier::{Identifier, IdentifierValue};
use crate::message::{Message, PolledMessages};
use crate::partition::AssignedRange;
use crate::partitioning::PartitioningValue;
use crate::stream::{denotes, identifies, same_bytes, topic_index, Stream};
use crate::topic::Topic;
use vstd::prelude::*;
use vstd::string::StringSliceAdditionalSpecFns;

verus! {

/// The index of the first stream that an identifier denotes.
pub open spec fn stream_index(streams: Seq<Stream>, identifier: IdentifierValue) -> Option<int>
    decreases streams.len(),
{
    if streams.len() == 0 {
        None
    } else if denotes(identifier, streams.last().id(), streams.last().name()) && stream_index(
        streams.drop_last(),
        identifier,
    ) is None {
        Some(streams.len() - 1)
    } else {
        stream_index(streams.drop_last(), identifier)
    }
}

/// `stream_index` finds a stream that the identifier denotes, and finds
/// none only when there is none.
pub proof fn lemma_stream_index(streams: Seq<Stream>, identifier: IdentifierValue)
    ensures
        match stream_index(streams, identifier) {
            Some(index) => 0 <= index < streams.len() && denotes(
                identifier,
                streams[index].id(),
                streams[index].name(),
            ),
            None => forall|i: int|
                0 <= i < streams.len() ==> !denotes(
                    identifier,
                    (#[trigger] streams[i]).id(),
                    streams[i].name(),
                ),
        },
    decreases streams.len(),
{
    if streams.len() > 0 {
        let rest = streams.drop_last();
        lemma_stream_index(rest, identifier);
        if stream_index(streams, identifier) is None {
            assert forall|i: int| 0 <= i < streams.len() implies !denotes(
                identifier,
                (#[trigger] streams[i]).id(),
                streams[i].name(),
            ) by {
                if i < rest.len() {
                    assert(rest[i] == streams[i]);
                }
            }
        } else {
            let index = stream_index(streams, identifier).unwrap();
            if index < rest.len() {
                assert(rest[index] == streams[index]);
            }
        }
    }
}

/// A stream found among the first `length` streams is the stream found
/// among all of them.
proof fn lemma_stream_index_stable(streams: Seq<Stream>, length: int, identifier: IdentifierValue)
    requires
        0 <= length <= streams.len(),
        stream_index(streams.take(length), identifier) is Some,
    ensures
        stream_index(streams, identifier) == stream_index(streams.take(length), identifier),
    decreases streams.len() - length,
{
    if length < streams.len() {
        let longer = streams.take(length + 1);
        assert(longer.drop_last() =~= streams.take(length));
        lemma_stream_index_stable(streams, length + 1, identifier);
    } else {
        assert(streams.take(length) =~= streams);
    }
}

/// Whether no two streams share an id or a name.
pub open spec fn streams_distinct(streams: Seq<Stream>) -> bool {
    forall|i: int, j: int|
        0 <= i < j < streams.len() ==> (#[trigger] streams[i]).id() != (#[trigger] streams[j]).id()
            && streams[i].name() != streams[j].name()
}

/// The streams of a broker.
#[derive(Debug)]
pub struct System {
    streams: Vec<Stream>,
}

impl System {
    /// The streams, in the order of their creation.
    pub closed spec fn streams(&self) -> Seq<Stream> {
        self.streams@
    }

    /// The invariant of the system: its streams are well formed and
    /// distinct.
    pub open spec fn wf(&self) -> bool {
        &&& streams_distinct(self.streams())
        &&& forall|i: int| 0 <= i < self.streams().len() ==> (#[trigger] self.streams()[i]).wf()
    }

    /// Whether a stream with this id or this name exists.
    pub open spec fn has_stream(&self, id: u32, name: Seq<u8>) -> bool {
        exists|i: int|
            0 <= i < self.streams().len() && ((#[trigger] self.streams()[i]).id() == id
                || self.streams()[i].name() == name)
    }

    /// A system without streams.
    pub fn new() -> (system: System)
        ensures
            system.wf(),
            system.streams() == Seq::<Stream>::empty(),
    {
        System { streams: Vec::new() }
    }

    /// Returns the streams.
    pub fn get_streams(&self) -> (streams: &Vec<Stream>)
        ensures
            streams@ == self.streams(),
    {
        &self.streams
    }

    /// Finds the stream that an identifier denotes.
    pub fn find_stream(&self, identifier: &Identifier) -> (found: Option<usize>)
        ensures
            match found {
                Some(index) => stream_index(self.streams(), identifier@) == Some(index as int)
                    && index < self.streams().len(),
                None => stream_index(self.streams(), identifier@) is None,
            },
    {
        let mut index: usize = 0;
        while index < self.streams.len()
            invariant
                index <= self.streams@.len(),
                stream_index(self.streams@.take(index as int), identifier@) is None,
            decreases self.streams@.len() - index,
        {
            let stream = &self.streams[index];
            proof {
                let longer = self.streams@.take(index + 1);
                assert(longer.drop_last() =~= self.streams@.take(index as int));
                assert(longer.last() == *stream);
            }
            if identifies(identifier, stream.stream_id(), stream.get_name()) {
                proof {
                    lemma_stream_index_stable(self.streams@, index + 1, identifier@);
                }
                return Some(index);
            }
            index = index + 1;
        }
        proof {
            assert(self.streams@.take(index as int) =~= self.streams@);
        }
        None
    }

    /// Returns the stream that an identifier denotes.
    pub fn get_stream(&self, identifier: &Identifier) -> (result: Result<&Stream, IggyError>)
        ensures
            match result {
                Ok(stream) => stream_index(self.streams(), identifier@) is Some && *stream
                    == self.streams()[stream_index(self.streams(), identifier@).unwrap()],
                Err(error) => stream_index(self.streams(), identifier@) is None && error
                    == IggyError::StreamNotFound,
            },
    {
        match self.find_stream(identifier) {
            Some(index) => Ok(&self.streams[index]),
            None => Err(IggyError::StreamNotFound),
        }
    }

    /// Creates a stream without topics. The id must be positive, the name
    /// have between 1 and 255 bytes, and neither may be taken.
    pub fn create_stream(&mut self, stream_id: u32, name: &str) -> (result: Result<(), IggyError>)
        requires
            old(self).wf(),
        ensures
            final(self).wf(),
            match result {
                Ok(()) => {
                    &&& stream_id > 0
                    &&& 1 <= name.spec_bytes().len() <= 255
                    &&& !old(self).has_stream(stream_id, name.spec_bytes())
                    &&& final(self).streams().len() == old(self).streams().len() + 1
                    &&& final(self).streams().drop_last() == old(self).streams()
                    &&& final(self).streams().last().id() == stream_id
                    &&& final(self).streams().last().name() == name.spec_bytes()
                    &&& final(self).streams().last().topics() == Seq::<Topic>::empty()
                },
                Err(error) => {
                    &&& final(self).streams() == old(self).streams()
                    &&& if stream_id == 0 || !(1 <= name.spec_bytes().len() <= 255) {
                        error == IggyError::InvalidIdentifier
                    } else {
                        error == IggyError::StreamAlreadyExists && old(self).has_stream(
                            stream_id,
                            name.spec_bytes(),
                        )
                    }
                },
            },
    {
        let stream = match Stream::new(stream_id, name) {
            Ok(stream) => stream,
            Err(error) => {
                return Err(error);
            },
        };
        let mut index: usize = 0;
        while index < self.streams.len()
            invariant
                index <= self.streams@.len(),
                *self == *old(self),
                self.wf(),
                stream.wf(),
                stream.id() == stream_id,
                stream.name() == name.spec_bytes(),
                forall|i: int|
                    0 <= i < index ==> (#[trigger] self.streams@[i]).id() != stream_id
                        && self.streams@[i].name() != stream.name(),
            decreases self.streams@.len() - index,
        {
            let other = &self.streams[index];
            if other.stream_id() == stream_id || same_bytes(
                other.get_name().as_slice(),
                stream.get_name().as_slice(),
            ) {
                assert(self.streams()[index as int].id() == stream_id
                    || self.streams()[index as int].name() == name.spec_bytes());
                return Err(IggyError::StreamAlreadyExists);
            }
            index = index + 1;
        }
        let ghost before = self.streams@;
        self.streams.push(stream);
        proof {
            let after = self.streams@;
            assert(after.drop_last() =~= before);
            assert forall|i: int, j: int| 0 <= i < j < after.len() implies (
            #[trigger] after[i]).id() != (#[trigger] after[j]).id() && after[i].name()
                != after[j].name() by {
                if j < before.len() {
                    assert(after[i] == before[i] && after[j] == before[j]);
                } else {
                    assert(after[i] == before[i]);
                }
            }
            assert forall|i: int| 0 <= i < after.len() implies (#[trigger] after[i]).wf() by {
                if i < before.len() {
                    assert(after[i] == before[i]);
                }
            }
        }
        Ok(())
    }
}

} // verus!

verus! {

impl System {
    /// Whether `after` and `result` are what an append to the topic that
    /// `topic_id` denotes in the stream that `stream_id` denotes makes of
    /// this system: that stream takes the batch as streams do and every
    /// other stream stays as it was; without such a stream nothing changes.
    pub open spec fn appended(
        &self,
        stream_id: IdentifierValue,
        topic_id: IdentifierValue,
        partitioning: PartitioningValue,
        messages: Seq<Message>,
        now: u64,
        after: &System,
        result: Result<(u32, AssignedRange), IggyError>,
    ) -> bool {
        &&& after.streams().len() == self.streams().len()
        &&& match stream_index(self.streams(), stream_id) {
            None => result == Err::<(u32, AssignedRange), IggyError>(IggyError::StreamNotFound)
                && after.streams() == self.streams(),
            Some(index) => {
                &&& forall|i: int|
                    0 <= i < self.streams().len() && i != index ==> after.streams()[i]
                        == self.streams()[i]
                &&& self.streams()[index].appended(
                    topic_id,
                    partitioning,
                    messages,
                    now,
                    &after.streams()[index],
                    result,
                )
            },
        }
    }

    /// Carries out an append command received at `now`. Returns the id of
    /// the partition that took the batch and the offsets assigned.
    pub fn append_messages(&mut self, command: SendMessages, now: u64) -> (result: Result<
        (u32, AssignedRange),
        IggyError,
    >)
        requires
            old(self).wf(),
        ensures
            final(self).wf(),
            old(self).appended(
                command.stream_id@,
                command.topic_id@,
                command.partitioning@,
                command.messages@,
                now,
                final(self),
                result,
            ),
    {
        let index = match self.find_stream(&command.stream_id) {
            Some(index) => index,
            None => {
                return Err(IggyError::StreamNotFound);
            },
        };
        let ghost before = self.streams@;
        assert(before[index as int].wf());
        let result = self.streams[index].append_messages(
            &command.topic_id,
            &command.partitioning,
            command.messages,
            now,
        );
        proof {
            let after = self.streams@;
            assert forall|i: int| 0 <= i < after.len() implies (#[trigger] after[i]).wf()
                && after[i].id() == before[i].id() && after[i].name() == before[i].name() by {
                if i != index {
                    assert(after[i] == before[i]);
                }
            }
            assert(streams_distinct(after)) by {
                assert forall|i: int, j: int| 0 <= i < j < after.len() implies (
                #[trigger] after[i]).id() != (#[trigger] after[j]).id() && after[i].name()
                    != after[j].name() by {
                    assert(after[i].id() == before[i].id() && after[j].id() == before[j].id());
                    assert(after[i].name() == before[i].name() && after[j].name()
                        == before[j].name());
                }
            }
        }
        result
    }

    /// Whether `result` is what a poll gives: what the addressed topic
    /// answers, or which of stream and topic does not exist.
    pub open spec fn polled(
        &self,
        request: &PollRequest,
        committed: Option<u64>,
        result: Result<PolledMessages, IggyError>,
    ) -> bool {
        match stream_index(self.streams(), request.stream_id@) {
            None => result is Err && result.unwrap_err() == IggyError::StreamNotFound,
            Some(stream) => match topic_index(
                self.streams()[stream].topics(),
                request.topic_id@,
            ) {
                None => result is Err && result.unwrap_err() == IggyError::TopicNotFound,
                Some(topic) => match request.partition_id {
                    None => result is Err && result.unwrap_err()
                        == IggyError::PartitionNotFound,
                    Some(partition_id) => self.streams()[stream].topics()[topic].polled(
                        partition_id,
                        request.args.strategy,
                        request.args.count,
                        committed,
                        result,
                    ),
                },
            },
        }
    }

    /// Carries out a poll. `committed` is the offset last committed for the
    /// polling consumer on the partition, as the offset store has it. A
    /// poll that names no partition finds none.
    pub fn poll_messages(&self, request: &PollRequest, committed: Option<u64>) -> (result: Result<
        PolledMessages,
        IggyError,
    >)
        requires
            self.wf(),
        ensures
            self.polled(request, committed, result),
    {
        let stream = match self.get_stream(&request.stream_id) {
            Ok(stream) => stream,
            Err(error) => {
                return Err(error);
            },
        };
        proof {
            lemma_stream_index(self.streams(), request.stream_id@);
        }
        let partition_id = match request.partition_id {
            Some(partition_id) => partition_id,
            None => {
                return match stream.get_topic(&request.topic_id) {
                    Ok(_) => Err(IggyError::PartitionNotFound),
                    Err(error) => Err(error),
                };
            },
        };
        stream.poll_messages(
            &request.topic_id,
            partition_id,
            request.args.strategy,
            request.args.count,
            committed,
        )
    }

    /// Where a flush goes: the stream, topic and partition that the command
    /// addresses, or which of them does not exist.
    pub open spec fn flush_target(&self, command: &FlushUnsavedBuffer) -> Result<
        (int, int, u32),
        IggyError,
    > {
        match stream_index(self.streams(), command.stream_id@) {
            None => Err(IggyError::StreamNotFound),
            Some(stream) => match topic_index(
                self.streams()[stream].topics(),
                command.topic_id@,
            ) {
                None => Err(IggyError::TopicNotFound),
                Some(topic) => if 1 <= command.partition_id
                    <= self.streams()[stream].topics()[topic].partitions().len() {
                    Ok((stream, topic, command.partition_id))
                } else {
                    Err(IggyError::PartitionNotFound)
                },
            },
        }
    }

    /// Resolves a flush command to the partition whose buffer is to be
    /// written out: the indices of its stream and topic, and its id.
    pub fn resolve_flush(&self, command: &FlushUnsavedBuffer) -> (result: Result<
        (usize, usize, u32),
        IggyError,
    >)
        requires
            self.wf(),
        ensures
            match result {
                Ok((stream, topic, partition_id)) => self.flush_target(command) == Ok::<
                    (int, int, u32),
                    IggyError,
                >((stream as int, topic as int, partition_id)),
                Err(error) => self.flush_target(command) == Err::<(int, int, u32), IggyError>(
                    error,
                ),
            },
    {
        let stream_at = match self.find_stream(&command.stream_id) {
            Some(index) => index,
            None => {
                return Err(IggyError::StreamNotFound);
            },
        };
        let stream = &self.streams[stream_at];
        let topic_at = match stream.find_topic(&command.topic_id) {
            Some(index) => index,
            None => {
                return Err(IggyError::TopicNotFound);
            },
        };
        let topic = &stream.get_topics()[topic_at];
        assert(stream.wf());
        assert(topic.wf());
        match topic.get_partition(command.partition_id) {
            Ok(_) => Ok((stream_at, topic_at, command.partition_id)),
            Err(error) => Err(error),
        }
    }

    /// Whether `after` and `result` are what creating `topic` in the stream
    /// that `stream_id` denotes makes of this system.
    pub open spec fn topic_created(
        &self,
        stream_id: IdentifierValue,
        topic: Topic,
        after: &System,
        result: Result<(), IggyError>,
    ) -> bool {
        &&& after.streams().len() == self.streams().len()
        &&& match stream_index(self.streams(), stream_id) {
            None => result == Err::<(), IggyError>(IggyError::StreamNotFound) && after.streams()
                == self.streams(),
            Some(index) => {
                let before = self.streams()[index];
                let now = after.streams()[index];
                &&& forall|i: int|
                    0 <= i < self.streams().len() && i != index ==> after.streams()[i]
                        == self.streams()[i]
                &&& now.id() == before.id()
                &&& now.name() == before.name()
                &&& match result {
                    Ok(()) => {
                        &&& topic.id() > 0
                        &&& !before.has_topic(topic.id(), topic.name())
                        &&& now.topics() == before.topics().push(topic)
                    },
                    Err(error) => {
                        &&& now.topics() == before.topics()
                        &&& error == if topic.id() == 0 {
                            IggyError::InvalidIdentifier
                        } else {
                            IggyError::TopicAlreadyExists
                        }
                        &&& topic.id() == 0 || before.has_topic(topic.id(), topic.name())
                    },
                }
            },
        }
    }

    /// Adds a topic to the stream that `stream_id` denotes.
    pub fn create_topic(&mut self, stream_id: &Identifier, topic: Topic) -> (result: Result<
        (),
        IggyError,
    >)
        requires
            old(self).wf(),
            topic.wf(),
        ensures
            final(self).wf(),
            old(self).topic_created(stream_id@, topic, final(self), result),
    {
        let index = match self.find_stream(stream_id) {
            Some(index) => index,
            None => {
                return Err(IggyError::StreamNotFound);
            },
        };
        let ghost before = self.streams@;
        assert(before[index as int].wf());
        let result = self.streams[index].create_topic(topic);
        proof {
            let after = self.streams@;
            assert forall|i: int| 0 <= i < after.len() implies (#[trigger] after[i]).wf()
                && after[i].id() == before[i].id() && after[i].name() == before[i].name() by {
                if i != index {
                    assert(after[i] == before[i]);
                }
            }
            assert(streams_distinct(after)) by {
                assert forall|i: int, j: int| 0 <= i < j < after.len() implies (
                #[trigger] after[i]).id() != (#[trigger] after[j]).id() && after[i].name()
                    != after[j].name() by {
                    assert(after[i].id() == before[i].id() && after[j].id() == before[j].id());
                    assert(after[i].name() == before[i].name() && after[j].name()
                        == before[j].name());
                }
            }
        }
        result
    }
}

} // verus!

verus! {

impl System {
    /// Whether `after` is this system after retention ran at `now` on each
    /// of its streams.
    pub open spec fn retention_applied(&self, now: u64, after: &System) -> bool {
        &&& after.streams().len() == self.streams().len()
        &&& forall|i: int|
            0 <= i < self.streams().len() ==> (#[trigger] self.streams()[i]).retention_applied(
                now,
                &after.streams()[i],
            )
    }

    /// Applies to every topic of every stream its retention policy at
    /// `now`.
    pub fn apply_retention(&mut self, now: u64)
        requires
            old(self).wf(),
        ensures
            final(self).wf(),
            old(self).retention_applied(now, final(self)),
    {
        let mut index: usize = 0;
        let ghost before = self.streams@;
        while index < self.streams.len()
            invariant
                index <= self.streams@.len(),
                self.streams@.len() == before.len(),
                before == old(self).streams(),
                forall|i: int|
                    0 <= i < before.len() ==> (#[trigger] self.streams@[i]).wf()
                        && self.streams@[i].id() == before[i].id() && self.streams@[i].name()
                        == before[i].name(),
                forall|i: int| index <= i < before.len() ==> self.streams@[i] == before[i],
                forall|i: int|
                    0 <= i < index ==> (#[trigger] before[i]).retention_applied(
                        now,
                        &self.streams@[i],
                    ),
            decreases self.streams@.len() - index,
        {
            let ghost previous = self.streams@;
            assert(previous[index as int].wf());
            self.streams[index].apply_retention(now);
            proof {
                assert forall|i: int| 0 <= i < before.len() implies (
                #[trigger] self.streams@[i]).wf() && self.streams@[i].id() == before[i].id()
                    && self.streams@[i].name() == before[i].name() by {
                    if i != index {
                        assert(self.streams@[i] == previous[i]);
                    }
                }
                assert forall|i: int| 0 <= i < index + 1 implies (
                #[trigger] before[i]).retention_applied(now, &self.streams@[i]) by {
                    if i != index {
                        assert(self.streams@[i] == previous[i]);
                    }
                }
            }
            index = index + 1;
        }
        proof {
            let after = self.streams@;
            assert(streams_distinct(after)) by {
                assert forall|i: int, j: int| 0 <= i < j < after.len() implies (
                #[trigger] after[i]).id() != (#[trigger] after[j]).id() && after[i].name()
                    != after[j].name() by {
                    assert(after[i].id() == before[i].id() && after[j].id() == before[j].id());
                    assert(after[i].name() == before[i].name() && after[j].name()
                        == before[j].name());
                }
            }
        }
    }
}

} // verus!
