//! A stream: a named set of topics.
//!
//! Within a stream no two topics share an id and no two share a name, so
//! an identifier, numeric or by name, denotes at most one topic.

use crate::commands::PollingStrategy;
use crate::error::IggyError;
use crate::identifier::{Identifier, IdentifierValue};
use crate::message::{Message, PolledMessages};
use crate::partition::AssignedRange;
use crate::partitioning::{Partitioning, PartitioningValue};
use crate::topic::Topic;
use vstd::prelude::*;
use vstd::string::StringSliceAdditionalSpecFns;

verus! {

/// Compares two byte strings.
pub fn same_bytes(left: &[u8], right: &[u8]) -> (same: bool)
    ensures
        same == (left@ == right@),
{
    if left.len() != right.len() {
        return false;
    }
    let mut index: usize = 0;
    while index < left.len()
        invariant
            index <= left.len(),
            left@.len() == right@.len(),
            forall|i: int| 0 <= i < index ==> left@[i] == right@[i],
        decreases left.len() - index,
    {
        if left[index] != right[index] {
            return false;
        }
        index = index + 1;
    }
    assert(left@ =~= right@);
    true
}

/// Whether an identifier denotes the resource with the given id and name.
pub open spec fn denotes(identifier: IdentifierValue, id: u32, name: Seq<u8>) -> bool {
    match identifier {
        IdentifierValue::Numeric(number) => number == id,
        IdentifierValue::Named(text) => text == name,
    }
}

/// Returns whether an identifier denotes the resource with the given id
/// and name.
pub fn identifies(identifier: &Identifier, id: u32, name: &Vec<u8>) -> (found: bool)
    ensures
        found == denotes(identifier@, id, name@),
{
    match identifier.get_u32_value() {
        Some(number) => number == id,
        None => match identifier.get_name() {
            Some(text) => same_bytes(text.as_slice(), name.as_slice()),
            None => false,
        },
    }
}

/// The index of the first topic that an identifier denotes.
pub open spec fn topic_index(topics: Seq<Topic>, identifier: IdentifierValue) -> Option<int>
    decreases topics.len(),
{
    if topics.len() == 0 {
        None
    } else if denotes(identifier, topics.last().id(), topics.last().name())
        && topic_index(topics.drop_last(), identifier) is None {
        Some(topics.len() - 1)
    } else {
        topic_index(topics.drop_last(), identifier)
    }
}

/// `topic_index` finds a topic that the identifier denotes, and finds none
/// only when there is none.
pub proof fn lemma_topic_index(topics: Seq<Topic>, identifier: IdentifierValue)
    ensures
        match topic_index(topics, identifier) {
            Some(index) => 0 <= index < topics.len() && denotes(
                identifier,
                topics[index].id(),
                topics[index].name(),
            ),
            None => forall|i: int|
                0 <= i < topics.len() ==> !denotes(
                    identifier,
                    (#[trigger] topics[i]).id(),
                    topics[i].name(),
                ),
        },
    decreases topics.len(),
{
    if topics.len() > 0 {
        let rest = topics.drop_last();
        lemma_topic_index(rest, identifier);
        if topic_index(topics, identifier) is None {
            assert forall|i: int| 0 <= i < topics.len() implies !denotes(
                identifier,
                (#[trigger] topics[i]).id(),
                topics[i].name(),
            ) by {
                if i < rest.len() {
                    assert(rest[i] == topics[i]);
                }
            }
        } else {
            let index = topic_index(topics, identifier).unwrap();
            if index < rest.len() {
                assert(rest[index] == topics[index]);
            }
        }
    }
}

/// Whether no two topics share an id or a name, and every id is positive.
pub open spec fn topics_distinct(topics: Seq<Topic>) -> bool {
    &&& forall|i: int| 0 <= i < topics.len() ==> (#[trigger] topics[i]).id() > 0
    &&& forall|i: int, j: int|
        0 <= i < j < topics.len() ==> (#[trigger] topics[i]).id() != (#[trigger] topics[j]).id()
            && topics[i].name() != topics[j].name()
}

/// A stream and its topics.
#[derive(Debug)]
pub struct Stream {
    stream_id: u32,
    name: Vec<u8>,
    topics: Vec<Topic>,
}

impl Stream {
    /// The stream's id.
    pub closed spec fn id(&self) -> u32 {
        self.stream_id
    }

    /// The stream's name.
    pub closed spec fn name(&self) -> Seq<u8> {
        self.name@
    }

    /// The stream's topics, in the order of their creation.
    pub closed spec fn topics(&self) -> Seq<Topic> {
        self.topics@
    }

    /// The invariant of a stream: its id is positive, its name has between
    /// 1 and 255 bytes, and its topics are well formed and distinct.
    pub open spec fn wf(&self) -> bool {
        &&& self.id() > 0
        &&& 1 <= self.name().len() <= 255
        &&& topics_distinct(self.topics())
        &&& forall|i: int| 0 <= i < self.topics().len() ==> (#[trigger] self.topics()[i]).wf()
    }

    /// A stream without topics. The id must be positive and the name have
    /// between 1 and 255 bytes.
    pub fn new(stream_id: u32, name: &str) -> (result: Result<Stream, IggyError>)
        ensures
            match result {
                Ok(stream) => {
                    &&& stream.wf()
                    &&& stream.id() == stream_id
                    &&& stream.name() == name.spec_bytes()
                    &&& stream.topics() == Seq::<Topic>::empty()
                },
                Err(error) => (stream_id == 0 || !(1 <= name.spec_bytes().len() <= 255)) && error
                    == IggyError::InvalidIdentifier,
            },
    {
        let bytes = name.as_bytes();
        if stream_id == 0 || bytes.len() < 1 || bytes.len() > 255 {
            return Err(IggyError::InvalidIdentifier);
        }
        Ok(Stream { stream_id, name: vstd::slice::slice_to_vec(bytes), topics: Vec::new() })
    }

    /// Returns the stream's id.
    pub fn stream_id(&self) -> (id: u32)
        ensures
            id == self.id(),
    {
        self.stream_id
    }

    /// Returns the stream's name.
    pub fn get_name(&self) -> (name: &Vec<u8>)
        ensures
            name@ == self.name(),
    {
        &self.name
    }

    /// Returns the stream's topics.
    pub fn get_topics(&self) -> (topics: &Vec<Topic>)
        ensures
            topics@ == self.topics(),
    {
        &self.topics
    }

    /// Finds the topic that an identifier denotes.
    pub fn find_topic(&self, identifier: &Identifier) -> (found: Option<usize>)
        ensures
            match found {
                Some(index) => topic_index(self.topics(), identifier@) == Some(index as int)
                    && index < self.topics().len(),
                None => topic_index(self.topics(), identifier@) is None,
            },
    {
        let mut index: usize = 0;
        while index < self.topics.len()
            invariant
                index <= self.topics@.len(),
                topic_index(self.topics@.take(index as int), identifier@) is None,
            decreases self.topics@.len() - index,
        {
            let topic = &self.topics[index];
            proof {
                let longer = self.topics@.take(index + 1);
                assert(longer.drop_last() =~= self.topics@.take(index as int));
                assert(longer.last() == *topic);
            }
            if identifies(identifier, topic.topic_id(), topic.get_name()) {
                proof {
                    lemma_topic_index_stable(self.topics@, index + 1, identifier@);
                }
                return Some(index);
            }
            index = index + 1;
        }
        proof {
            assert(self.topics@.take(index as int) =~= self.topics@);
        }
        None
    }

    /// Returns the topic that an identifier denotes.
    pub fn get_topic(&self, identifier: &Identifier) -> (result: Result<&Topic, IggyError>)
        ensures
            match result {
                Ok(topic) => topic_index(self.topics(), identifier@) is Some && *topic
                    == self.topics()[topic_index(self.topics(), identifier@).unwrap()],
                Err(error) => topic_index(self.topics(), identifier@) is None && error
                    == IggyError::TopicNotFound,
            },
    {
        match self.find_topic(identifier) {
            Some(index) => Ok(&self.topics[index]),
            None => Err(IggyError::TopicNotFound),
        }
    }

    /// Whether a topic with this id or this name exists.
    pub open spec fn has_topic(&self, id: u32, name: Seq<u8>) -> bool {
        exists|i: int|
            0 <= i < self.topics().len() && ((#[trigger] self.topics()[i]).id() == id
                || self.topics()[i].name() == name)
    }

    /// Adds a topic. Its id must be positive, and neither its id nor its
    /// name may be taken.
    pub fn create_topic(&mut self, topic: Topic) -> (result: Result<(), IggyError>)
        requires
            old(self).wf(),
            topic.wf(),
        ensures
            final(self).wf(),
            final(self).id() == old(self).id(),
            final(self).name() == old(self).name(),
            match result {
                Ok(()) => {
                    &&& topic.id() > 0
                    &&& !old(self).has_topic(topic.id(), topic.name())
                    &&& final(self).topics() == old(self).topics().push(topic)
                },
                Err(error) => {
                    &&& final(self).topics() == old(self).topics()
                    &&& error == if topic.id() == 0 {
                        IggyError::InvalidIdentifier
                    } else {
                        IggyError::TopicAlreadyExists
                    }
                    &&& topic.id() == 0 || old(self).has_topic(topic.id(), topic.name())
                },
            },
    {
        if topic.topic_id() == 0 {
            return Err(IggyError::InvalidIdentifier);
        }
        let mut index: usize = 0;
        while index < self.topics.len()
            invariant
                index <= self.topics@.len(),
                *self == *old(self),
                self.wf(),
                topic.id() > 0,
                forall|i: int|
                    0 <= i < index ==> (#[trigger] self.topics@[i]).id() != topic.id()
                        && self.topics@[i].name() != topic.name(),
            decreases self.topics@.len() - index,
        {
            let other = &self.topics[index];
            if other.topic_id() == topic.topic_id() || same_bytes(
                other.get_name().as_slice(),
                topic.get_name().as_slice(),
            ) {
                assert(self.topics()[index as int].id() == topic.id()
                    || self.topics()[index as int].name() == topic.name());
                return Err(IggyError::TopicAlreadyExists);
            }
            index = index + 1;
        }
        let ghost before = self.topics@;
        self.topics.push(topic);
        proof {
            let after = self.topics@;
            assert forall|i: int, j: int| 0 <= i < j < after.len() implies (
            #[trigger] after[i]).id() != (#[trigger] after[j]).id() && after[i].name()
                != after[j].name() by {
                if j < before.len() {
                    assert(after[i] == before[i] && after[j] == before[j]);
                } else {
                    assert(after[i] == before[i]);
                }
            }
            assert forall|i: int| 0 <= i < after.len() implies (#[trigger] after[i]).wf()
                && after[i].id() > 0 by {
                if i < before.len() {
                    assert(after[i] == before[i]);
                }
            }
        }
        Ok(())
    }
}

/// A topic found among the first `length` topics is the topic found among
/// all of them.
proof fn lemma_topic_index_stable(topics: Seq<Topic>, length: int, identifier: IdentifierValue)
    requires
        0 <= length <= topics.len(),
        topic_index(topics.take(length), identifier) is Some,
    ensures
        topic_index(topics, identifier) == topic_index(topics.take(length), identifier),
    decreases topics.len() - length,
{
    if length < topics.len() {
        let longer = topics.take(length + 1);
        assert(longer.drop_last() =~= topics.take(length));
        lemma_topic_index_stable(topics, length + 1, identifier);
    } else {
        assert(topics.take(length) =~= topics);
    }
}

} // verus!

verus! {

impl Stream {
    /// Whether `after` and `result` are what an append to the topic that
    /// `topic_id` denotes makes of this stream: the topic takes the batch
    /// as topics do and every other topic stays as it was; without such a
    /// topic nothing changes.
    pub open spec fn appended(
        &self,
        topic_id: IdentifierValue,
        partitioning: PartitioningValue,
        messages: Seq<Message>,
        now: u64,
        after: &Stream,
        result: Result<(u32, AssignedRange), IggyError>,
    ) -> bool {
        &&& after.id() == self.id()
        &&& after.name() == self.name()
        &&& after.topics().len() == self.topics().len()
        &&& match topic_index(self.topics(), topic_id) {
            None => result == Err::<(u32, AssignedRange), IggyError>(IggyError::TopicNotFound)
                && after.topics() == self.topics(),
            Some(index) => {
                &&& forall|i: int|
                    0 <= i < self.topics().len() && i != index ==> after.topics()[i]
                        == self.topics()[i]
                &&& self.topics()[index].appended(
                    partitioning,
                    messages,
                    now,
                    &after.topics()[index],
                    result,
                )
            },
        }
    }

    /// Appends a batch received at `now` to the topic that `topic_id`
    /// denotes.
    pub fn append_messages(
        &mut self,
        topic_id: &Identifier,
        partitioning: &Partitioning,
        messages: Vec<Message>,
        now: u64,
    ) -> (result: Result<(u32, AssignedRange), IggyError>)
        requires
            old(self).wf(),
        ensures
            final(self).wf(),
            old(self).appended(topic_id@, partitioning@, messages@, now, final(self), result),
    {
        let index = match self.find_topic(topic_id) {
            Some(index) => index,
            None => {
                return Err(IggyError::TopicNotFound);
            },
        };
        let ghost before = self.topics@;
        assert(before[index as int].wf());
        let result = self.topics[index].append_messages(partitioning, messages, now);
        proof {
            let after = self.topics@;
            assert forall|i: int| 0 <= i < after.len() implies (#[trigger] after[i]).wf()
                && after[i].id() == before[i].id() && after[i].name() == before[i].name() by {
                if i != index {
                    assert(after[i] == before[i]);
                }
            }
            assert(topics_distinct(after)) by {
                assert forall|i: int, j: int| 0 <= i < j < after.len() implies (
                #[trigger] after[i]).id() != (#[trigger] after[j]).id() && after[i].name()
                    != after[j].name() by {
                    assert(after[i].id() == before[i].id() && after[j].id() == before[j].id());
                    assert(after[i].name() == before[i].name() && after[j].name()
                        == before[j].name());
                }
            }
        }
        result
    }

    /// Polls a partition of the topic that `topic_id` denotes.
    pub fn poll_messages(
        &self,
        topic_id: &Identifier,
        partition_id: u32,
        strategy: PollingStrategy,
        count: u32,
        committed: Option<u64>,
    ) -> (result: Result<PolledMessages, IggyError>)
        requires
            self.wf(),
        ensures
            match topic_index(self.topics(), topic_id@) {
                None => result is Err && result.unwrap_err() == IggyError::TopicNotFound,
                Some(index) => self.topics()[index].polled(
                    partition_id,
                    strategy,
                    count,
                    committed,
                    result,
                ),
            },
    {
        let topic = match self.get_topic(topic_id) {
            Ok(topic) => topic,
            Err(error) => {
                return Err(error);
            },
        };
        proof {
            lemma_topic_index(self.topics(), topic_id@);
        }
        topic.poll_messages(partition_id, strategy, count, committed)
    }
}

} // verus!

verus! {

impl Stream {
    /// Whether `after` is this stream after retention ran at `now` on each
    /// of its topics.
    pub open spec fn retention_applied(&self, now: u64, after: &Stream) -> bool {
        &&& after.id() == self.id()
        &&& after.name() == self.name()
        &&& after.topics().len() == self.topics().len()
        &&& forall|i: int|
            0 <= i < self.topics().len() ==> (#[trigger] self.topics()[i]).retention_applied(
                now,
                &after.topics()[i],
            )
    }

    /// Applies to every topic its retention policy at `now`.
    pub fn apply_retention(&mut self, now: u64)
        requires
            old(self).wf(),
        ensures
            final(self).wf(),
            old(self).retention_applied(now, final(self)),
    {
        let mut index: usize = 0;
        let ghost before = self.topics@;
        while index < self.topics.len()
            invariant
                index <= self.topics@.len(),
                self.topics@.len() == before.len(),
                before == old(self).topics(),
                self.stream_id == old(self).stream_id,
                self.name == old(self).name,
                forall|i: int|
                    0 <= i < before.len() ==> (#[trigger] self.topics@[i]).wf()
                        && self.topics@[i].id() == before[i].id() && self.topics@[i].name()
                        == before[i].name(),
                forall|i: int| index <= i < before.len() ==> self.topics@[i] == before[i],
                forall|i: int|
                    0 <= i < index ==> (#[trigger] before[i]).retention_applied(
                        now,
                        &self.topics@[i],
                    ),
            decreases self.topics@.len() - index,
        {
            let ghost previous = self.topics@;
            assert(previous[index as int].wf());
            let _ = self.topics[index].apply_retention(now);
            proof {
                assert forall|i: int| 0 <= i < before.len() implies (
                #[trigger] self.topics@[i]).wf() && self.topics@[i].id() == before[i].id()
                    && self.topics@[i].name() == before[i].name() by {
                    if i != index {
                        assert(self.topics@[i] == previous[i]);
                    }
                }
                assert forall|i: int| 0 <= i < index + 1 implies (
                #[trigger] before[i]).retention_applied(now, &self.topics@[i]) by {
                    if i != index {
                        assert(self.topics@[i] == previous[i]);
                    }
                }
            }
            index = index + 1;
        }
        proof {
            let after = self.topics@;
            assert(topics_distinct(after)) by {
                assert forall|i: int, j: int| 0 <= i < j < after.len() implies (
                #[trigger] after[i]).id() != (#[trigger] after[j]).id() && after[i].name()
                    != after[j].name() by {
                    assert(after[i].id() == before[i].id() && after[j].id() == before[j].id());
                    assert(after[i].name() == before[i].name() && after[j].name()
                        == before[j].name());
                }
                assert forall|i: int| 0 <= i < after.len() implies (#[trigger] after[i]).id()
                    > 0 by {
                    assert(after[i].id() == before[i].id());
                }
            }
        }
    }
}

} // verus!
