//! The message routes of the HTTP gateway.
//!
//! Each route is decided here from what the transport extracted from the
//! request: the outcome is the command that the transport hands to the
//! engine, or the error it answers with. Awaiting the engine and writing
//! the response is the transport's part.

use crate::commands::{
    first_rejection, rejection, Consumer, ConsumerKind, FlushUnsavedBuffer, PollMessages,
    PollingArgs, SendMessages,
};
use crate::error::IggyError;
use crate::identifier::{parse_identifier, Identifier, IdentifierValue};
use crate::message::Message;
use crate::partitioning::PartitioningValue;
use crate::random_id::{get_uuid, resolve_id};
use vstd::prelude::*;
use vstd::string::StringSliceAdditionalSpecFns;

verus! {

/// Status of a poll or a flush that succeeded.
pub const STATUS_OK: u16 = 200;

/// Status of a send that succeeded.
pub const STATUS_CREATED: u16 = 201;

/// A poll that passed the gateway: where to read, as whom, and how.
#[derive(Debug)]
pub struct PollRequest {
    pub stream_id: Identifier,
    pub topic_id: Identifier,
    pub partition_id: Option<u32>,
    pub consumer: Consumer,
    pub args: PollingArgs,
}

/// What the path of a request names: its stream and its topic.
pub open spec fn path_target(stream_id: &str, topic_id: &str) -> Result<
    (IdentifierValue, IdentifierValue),
    IggyError,
> {
    match parse_identifier(stream_id.spec_bytes()) {
        Err(error) => Err(error),
        Ok(stream) => match parse_identifier(topic_id.spec_bytes()) {
            Err(error) => Err(error),
            Ok(topic) => Ok((stream, topic)),
        },
    }
}

fn parse_path(stream_id: &str, topic_id: &str) -> (result: Result<
    (Identifier, Identifier),
    IggyError,
>)
    ensures
        match result {
            Ok((stream, topic)) => path_target(stream_id, topic_id) == Ok::<
                (IdentifierValue, IdentifierValue),
                IggyError,
            >((stream@, topic@)),
            Err(error) => path_target(stream_id, topic_id) == Err::<
                (IdentifierValue, IdentifierValue),
                IggyError,
            >(error),
        },
{
    let stream = match Identifier::from_str_value(stream_id) {
        Ok(stream) => stream,
        Err(error) => {
            return Err(error);
        },
    };
    let topic = match Identifier::from_str_value(topic_id) {
        Ok(topic) => topic,
        Err(error) => {
            return Err(error);
        },
    };
    Ok((stream, topic))
}

/// `GET /streams/{stream_id}/topics/{topic_id}/messages`: the poll that the
/// query describes, on the stream and topic that the path names, as the
/// single consumer with the query's consumer id.
pub fn poll_messages(stream_id: &str, topic_id: &str, query: PollMessages) -> (result: Result<
    PollRequest,
    IggyError,
>)
    ensures
        match result {
            Ok(request) => {
                &&& path_target(stream_id, topic_id) == Ok::<
                    (IdentifierValue, IdentifierValue),
                    IggyError,
                >((request.stream_id@, request.topic_id@))
                &&& request.partition_id == query.partition_id
                &&& request.consumer == (Consumer {
                    kind: ConsumerKind::Consumer,
                    id: query.consumer.id,
                })
                &&& request.args == (PollingArgs {
                    strategy: query.strategy,
                    count: query.count,
                    auto_commit: query.auto_commit,
                })
            },
            Err(error) => path_target(stream_id, topic_id) == Err::<
                (IdentifierValue, IdentifierValue),
                IggyError,
            >(error),
        },
{
    let (stream, topic) = match parse_path(stream_id, topic_id) {
        Ok(target) => target,
        Err(error) => {
            return Err(error);
        },
    };
    let mut query = query;
    query.stream_id = stream;
    query.topic_id = topic;
    match query.validate() {
        Ok(()) => {},
        Err(error) => {
            return Err(error);
        },
    }
    let consumer = Consumer::new(query.consumer.id);
    Ok(
        PollRequest {
            stream_id: query.stream_id,
            topic_id: query.topic_id,
            partition_id: query.partition_id,
            consumer,
            args: PollingArgs::new(query.strategy, query.count, query.auto_commit),
        },
    )
}

/// `GET /streams/{stream_id}/topics/{topic_id}/messages/flush/{partition_id}/{fsync}`:
/// the flush of that partition.
pub fn flush_unsaved_buffer(
    stream_id: &str,
    topic_id: &str,
    partition_id: u32,
    fsync: bool,
) -> (result: Result<FlushUnsavedBuffer, IggyError>)
    ensures
        match result {
            Ok(command) => {
                &&& path_target(stream_id, topic_id) == Ok::<
                    (IdentifierValue, IdentifierValue),
                    IggyError,
                >((command.stream_id@, command.topic_id@))
                &&& command.partition_id == partition_id
                &&& command.fsync == fsync
            },
            Err(error) => path_target(stream_id, topic_id) == Err::<
                (IdentifierValue, IdentifierValue),
                IggyError,
            >(error),
        },
{
    let (stream, topic) = match parse_path(stream_id, topic_id) {
        Ok(target) => target,
        Err(error) => {
            return Err(error);
        },
    };
    Ok(FlushUnsavedBuffer { stream_id: stream, topic_id: topic, partition_id, fsync })
}

} // verus!

verus! {

/// Whether `after` is `before` with an id filled in where it had none.
pub open spec fn with_id(before: Message, after: Message) -> bool {
    &&& after.id != 0
    &&& before.id != 0 ==> after.id == before.id
    &&& after.length == before.length
    &&& after.payload == before.payload
    &&& after.headers == before.headers
}

/// Gives every message that has no id a fresh one. Messages that have an
/// id keep it, and nothing else changes.
pub fn assign_ids(messages: &mut Vec<Message>)
    ensures
        final(messages)@.len() == old(messages)@.len(),
        forall|i: int|
            0 <= i < old(messages)@.len() ==> with_id(
                old(messages)@[i],
                #[trigger] final(messages)@[i],
            ),
{
    let mut index: usize = 0;
    while index < messages.len()
        invariant
            index <= messages.len(),
            messages@.len() == old(messages)@.len(),
            forall|i: int| 0 <= i < index ==> with_id(old(messages)@[i], #[trigger] messages@[i]),
            forall|i: int| index <= i < messages@.len() ==> messages@[i] == old(messages)@[i],
        decreases messages.len() - index,
    {
        let own = messages[index].id;
        if own == 0 {
            let fresh = get_uuid();
            messages[index].id = resolve_id(own, fresh);
        }
        index = index + 1;
    }
}

} // verus!

verus! {

/// A partitioning with its length field set to the length of its value, as
/// far as one byte holds it.
pub open spec fn measured(partitioning: PartitioningValue) -> PartitioningValue {
    PartitioningValue {
        kind: partitioning.kind,
        length: (partitioning.value.len() % 256) as u8,
        value: partitioning.value,
    }
}

/// Filling in ids changes nothing about which messages are refused.
proof fn lemma_ids_keep_rejection(before: Seq<Message>, after: Seq<Message>)
    requires
        before.len() == after.len(),
        forall|i: int| 0 <= i < before.len() ==> with_id(before[i], #[trigger] after[i]),
    ensures
        first_rejection(after) == first_rejection(before),
    decreases before.len(),
{
    if before.len() > 0 {
        assert(with_id(before[0], after[0]));
        assert(rejection(after[0]) == rejection(before[0]));
        let before_rest = before.skip(1);
        let after_rest = after.skip(1);
        assert forall|i: int| 0 <= i < before_rest.len() implies with_id(
            before_rest[i],
            #[trigger] after_rest[i],
        ) by {
            assert(with_id(before[i + 1], after[i + 1]));
        }
        lemma_ids_keep_rejection(before_rest, after_rest);
    }
}

/// `POST /streams/{stream_id}/topics/{topic_id}/messages`: the append that
/// the body describes, on the stream and topic that the path names. The
/// partitioning's length is taken from its value, messages without an id
/// get one, and the command is checked. A path error comes before any
/// other.
pub fn send_messages(stream_id: &str, topic_id: &str, command: SendMessages) -> (result: Result<
    SendMessages,
    IggyError,
>)
    ensures
        match result {
            Ok(accepted) => {
                &&& path_target(stream_id, topic_id) == Ok::<
                    (IdentifierValue, IdentifierValue),
                    IggyError,
                >((accepted.stream_id@, accepted.topic_id@))
                &&& SendMessages::refusal(measured(command.partitioning@), command.messages@)
                    is None
                &&& accepted.partitioning@ == measured(command.partitioning@)
                &&& accepted.messages@.len() == command.messages@.len()
                &&& forall|i: int|
                    0 <= i < command.messages@.len() ==> with_id(
                        command.messages@[i],
                        #[trigger] accepted.messages@[i],
                    )
            },
            Err(error) => match path_target(stream_id, topic_id) {
                Err(path_error) => error == path_error,
                Ok(_) => SendMessages::refusal(
                    measured(command.partitioning@),
                    command.messages@,
                ) == Some(error),
            },
        },
{
    let (stream, topic) = match parse_path(stream_id, topic_id) {
        Ok(target) => target,
        Err(error) => {
            return Err(error);
        },
    };
    let ghost sent = command.messages@;
    let mut command = command;
    command.stream_id = stream;
    command.topic_id = topic;
    command.partitioning.length = (command.partitioning.value.len() % 256) as u8;
    assign_ids(&mut command.messages);
    proof {
        lemma_ids_keep_rejection(sent, command.messages@);
    }
    match command.validate() {
        Ok(()) => {},
        Err(error) => {
            return Err(error);
        },
    }
    Ok(command)
}

} // verus!
