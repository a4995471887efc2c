//! Building the batches that a producer sends.

use crate::buffer::contents;
use crate::commands::SendMessages;
use crate::error::IggyError;
use crate::identifier::{Identifier, IdentifierValue};
use crate::message::Message;
use crate::partitioning::Partitioning;
use vstd::prelude::*;
use vstd::utf8::encode_utf8;

verus! {

/// Whether `message` is the message that a producer makes of `text`: no
/// id, no headers, the text's bytes in UTF-8 as payload.
pub open spec fn carries(message: Message, text: String) -> bool {
    &&& message.id == 0
    &&& message.headers is None
    &&& contents(message.payload) == encode_utf8(text@)
}

/// Builds the command that sends one message per text to a partition of a
/// topic, both topic and stream named by their numeric ids, which must be
/// positive.
pub fn build_batch(stream_id: u32, topic_id: u32, partition_id: u32, texts: &Vec<String>) -> (result:
    Result<SendMessages, IggyError>)
    ensures
        match result {
            Ok(command) => {
                &&& stream_id > 0 && topic_id > 0
                &&& command.stream_id@ == IdentifierValue::Numeric(stream_id)
                &&& command.topic_id@ == IdentifierValue::Numeric(topic_id)
                &&& command.partitioning@ == Partitioning::partition_id_value(partition_id)
                &&& command.messages@.len() == texts@.len()
                &&& forall|i: int|
                    0 <= i < texts@.len() ==> carries(#[trigger] command.messages@[i], texts@[i])
            },
            Err(error) => (stream_id == 0 || topic_id == 0) && error
                == IggyError::InvalidIdentifier,
        },
{
    let stream = match Identifier::numeric(stream_id) {
        Ok(stream) => stream,
        Err(error) => {
            return Err(error);
        },
    };
    let topic = match Identifier::numeric(topic_id) {
        Ok(topic) => topic,
        Err(error) => {
            return Err(error);
        },
    };
    let mut messages: Vec<Message> = Vec::new();
    let mut index: usize = 0;
    while index < texts.len()
        invariant
            index <= texts@.len(),
            messages@.len() == index,
            forall|i: int| 0 <= i < index ==> carries(#[trigger] messages@[i], texts@[i]),
        decreases texts@.len() - index,
    {
        messages.push(Message::from_text(texts[index].as_str()));
        index = index + 1;
    }
    Ok(
        SendMessages {
            stream_id: stream,
            topic_id: topic,
            partitioning: Partitioning::partition_id(partition_id),
            messages,
        },
    )
}

} // verus!
