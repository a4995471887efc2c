//! The commands that carry messages in and out, and the rules they must
//! meet before the engine sees them.

use crate::buffer;
use crate::buffer::contents;
use crate::error::IggyError;
use crate::headers::{encoded_len, entries_of, headers_size};
use crate::identifier::Identifier;
use crate::message::Message;
use crate::partitioning::{Partitioning, PartitioningValue};
use vstd::prelude::*;

verus! {

/// Most bytes that the headers of one message may take on the wire.
pub const MAX_HEADERS_SIZE: u32 = 100 * 1000;

/// Most bytes that the payload of one message may have.
pub const MAX_PAYLOAD_SIZE: u32 = 10 * 1000 * 1000;

/// Who polls: a consumer on its own, or a member on behalf of its group.
#[derive(Clone, Copy, Debug, PartialEq, Eq, Structural)]
pub enum ConsumerKind {
    Consumer,
    ConsumerGroup,
}

/// A consumer, or a consumer group, by its numeric id.
#[derive(Clone, Copy, Debug, PartialEq, Eq, Structural)]
pub struct Consumer {
    pub kind: ConsumerKind,
    pub id: u32,
}

impl Consumer {
    /// The single consumer with id `id`.
    pub fn new(id: u32) -> (consumer: Consumer)
        ensures
            consumer == (Consumer { kind: ConsumerKind::Consumer, id }),
    {
        Consumer { kind: ConsumerKind::Consumer, id }
    }

    /// The consumer group with id `id`.
    pub fn group(id: u32) -> (consumer: Consumer)
        ensures
            consumer == (Consumer { kind: ConsumerKind::ConsumerGroup, id }),
    {
        Consumer { kind: ConsumerKind::ConsumerGroup, id }
    }
}

/// Where a poll starts.
#[derive(Clone, Copy, Debug, PartialEq, Eq, Structural)]
pub enum PollingStrategy {
    /// At the given offset.
    Offset(u64),
    /// At the first message whose timestamp is not before the given one.
    Timestamp(u64),
    /// At the partition's first message.
    First,
    /// At the given number of messages before the partition's end.
    Latest(u64),
    /// After the offset last committed for the consumer.
    Next,
}

/// What a poll asks of a partition.
#[derive(Clone, Copy, Debug, PartialEq, Eq, Structural)]
pub struct PollingArgs {
    pub strategy: PollingStrategy,
    pub count: u32,
    pub auto_commit: bool,
}

impl PollingArgs {
    pub fn new(strategy: PollingStrategy, count: u32, auto_commit: bool) -> (args: PollingArgs)
        ensures
            args == (PollingArgs { strategy, count, auto_commit }),
    {
        PollingArgs { strategy, count, auto_commit }
    }
}

/// The command that polls messages from a topic.
#[derive(Debug)]
pub struct PollMessages {
    pub stream_id: Identifier,
    pub topic_id: Identifier,
    pub partition_id: Option<u32>,
    pub consumer: Consumer,
    pub strategy: PollingStrategy,
    pub count: u32,
    pub auto_commit: bool,
}

/// The command that appends a batch of messages to a topic.
#[derive(Debug)]
pub struct SendMessages {
    pub stream_id: Identifier,
    pub topic_id: Identifier,
    pub partitioning: Partitioning,
    pub messages: Vec<Message>,
}

/// The command that writes a partition's buffered messages out.
#[derive(Debug)]
pub struct FlushUnsavedBuffer {
    pub stream_id: Identifier,
    pub topic_id: Identifier,
    pub partition_id: u32,
    pub fsync: bool,
}

/// Why a message is refused, if it is: its payload is too long, or else its
/// headers are.
pub open spec fn rejection(message: Message) -> Option<IggyError> {
    if contents(message.payload).len() > MAX_PAYLOAD_SIZE {
        Some(IggyError::InvalidMessagePayloadLength)
    } else if message.headers is Some && encoded_len(entries_of(message.headers.unwrap()@))
        > MAX_HEADERS_SIZE {
        Some(IggyError::TooBigHeadersPayload)
    } else {
        None
    }
}

/// Why a batch is refused, if it is: the reason of the first message that
/// is refused.
pub open spec fn first_rejection(messages: Seq<Message>) -> Option<IggyError>
    decreases messages.len(),
{
    if messages.len() == 0 {
        None
    } else {
        match rejection(messages[0]) {
            Some(error) => Some(error),
            None => first_rejection(messages.skip(1)),
        }
    }
}

/// A batch is accepted exactly when each of its messages is.
pub proof fn lemma_first_rejection(messages: Seq<Message>)
    ensures
        first_rejection(messages) is None <==> forall|i: int|
            0 <= i < messages.len() ==> rejection(#[trigger] messages[i]) is None,
    decreases messages.len(),
{
    if messages.len() > 0 {
        let rest = messages.skip(1);
        lemma_first_rejection(rest);
        if first_rejection(messages) is None {
            assert forall|i: int| 0 <= i < messages.len() implies rejection(
                #[trigger] messages[i],
            ) is None by {
                if i > 0 {
                    assert(messages[i] == rest[i - 1]);
                }
            }
        } else if rejection(messages[0]) is None {
            let i = choose|i: int| 0 <= i < rest.len() && rejection(#[trigger] rest[i]) is Some;
            assert(rest[i] == messages[i + 1]);
        }
    }
}

/// Checks one message against the size limits.
pub fn validate_message(message: &Message) -> (result: Result<(), IggyError>)
    ensures
        result == match rejection(*message) {
            Some(error) => Err::<(), IggyError>(error),
            None => Ok::<(), IggyError>(()),
        },
{
    if buffer::as_slice(&message.payload).len() as u64 > MAX_PAYLOAD_SIZE as u64 {
        return Err(IggyError::InvalidMessagePayloadLength);
    }
    match &message.headers {
        Some(headers) => {
            if headers_size(headers) > MAX_HEADERS_SIZE as u128 {
                return Err(IggyError::TooBigHeadersPayload);
            }
        },
        None => {},
    }
    Ok(())
}

/// Checks every message of a batch against the size limits, first to last.
pub fn validate_messages(messages: &Vec<Message>) -> (result: Result<(), IggyError>)
    ensures
        result == match first_rejection(messages@) {
            Some(error) => Err::<(), IggyError>(error),
            None => Ok::<(), IggyError>(()),
        },
{
    let mut index: usize = 0;
    proof {
        assert(messages@.skip(0) =~= messages@);
    }
    while index < messages.len()
        invariant
            index <= messages.len(),
            first_rejection(messages@) == first_rejection(messages@.skip(index as int)),
        decreases messages.len() - index,
    {
        proof {
            let rest = messages@.skip(index as int);
            assert(rest[0] == messages@[index as int]);
            assert(rest.skip(1) =~= messages@.skip(index + 1));
        }
        match validate_message(&messages[index]) {
            Ok(()) => {},
            Err(error) => {
                return Err(error);
            },
        }
        index = index + 1;
    }
    Ok(())
}

impl SendMessages {
    /// Why the command is refused, if it is: an invalid partitioning, or
    /// else the first message over a size limit.
    pub open spec fn refusal(partitioning: PartitioningValue, messages: Seq<Message>) -> Option<
        IggyError,
    > {
        if !partitioning.is_valid() {
            Some(IggyError::InvalidPartitioning)
        } else {
            first_rejection(messages)
        }
    }

    /// Checks the command before it is handed to the engine.
    pub fn validate(&self) -> (result: Result<(), IggyError>)
        ensures
            result == match Self::refusal(self.partitioning@, self.messages@) {
                Some(error) => Err::<(), IggyError>(error),
                None => Ok::<(), IggyError>(()),
            },
    {
        match self.partitioning.validate() {
            Ok(()) => {},
            Err(error) => {
                return Err(error);
            },
        }
        validate_messages(&self.messages)
    }
}

impl PollMessages {
    /// Checks the command before it is handed to the engine. Every poll is
    /// well-formed: a poll that reaches past the partition's end is answered
    /// with an empty batch, not refused.
    pub fn validate(&self) -> (result: Result<(), IggyError>)
        ensures
            result is Ok,
    {
        Ok(())
    }
}

} // verus!
