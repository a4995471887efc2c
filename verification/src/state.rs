//! Life-cycle state of a stored message.

use crate::error::IggyError;
use vstd::prelude::*;

verus! {

/// Whether a stored message may be delivered.
#[derive(Clone, Copy, Debug, PartialEq, Eq, Structural)]
pub enum MessageState {
    Available,
    Unavailable,
    Poisoned,
    MarkedForDeletion,
}

/// Whether `code` is the wire code of some state.
pub open spec fn is_state_code(code: u8) -> bool {
    code == 1 || code == 10 || code == 20 || code == 30
}

/// The state that a wire code stands for; `Available` for any other byte.
pub open spec fn state_of_code(code: u8) -> MessageState {
    if code == 10 {
        MessageState::Unavailable
    } else if code == 20 {
        MessageState::Poisoned
    } else if code == 30 {
        MessageState::MarkedForDeletion
    } else {
        MessageState::Available
    }
}

impl MessageState {
    /// The byte that stands for this state on the wire and on disk.
    pub open spec fn code(self) -> u8 {
        match self {
            MessageState::Available => 1,
            MessageState::Unavailable => 10,
            MessageState::Poisoned => 20,
            MessageState::MarkedForDeletion => 30,
        }
    }

    /// Returns the wire code of the state.
    pub fn as_code(&self) -> (code: u8)
        ensures
            code == self.code(),
            is_state_code(code),
    {
        match self {
            MessageState::Available => 1,
            MessageState::Unavailable => 10,
            MessageState::Poisoned => 20,
            MessageState::MarkedForDeletion => 30,
        }
    }

    /// Reads a state from its wire code. Any byte that is no state's code is
    /// a malformed number.
    pub fn from_code(code: u8) -> (result: Result<MessageState, IggyError>)
        ensures
            is_state_code(code) ==> result == Ok::<MessageState, IggyError>(state_of_code(code)),
            !is_state_code(code) ==> result == Err::<MessageState, IggyError>(
                IggyError::InvalidNumberEncoding,
            ),
    {
        if code == 1 {
            Ok(MessageState::Available)
        } else if code == 10 {
            Ok(MessageState::Unavailable)
        } else if code == 20 {
            Ok(MessageState::Poisoned)
        } else if code == 30 {
            Ok(MessageState::MarkedForDeletion)
        } else {
            Err(IggyError::InvalidNumberEncoding)
        }
    }
}

/// Every state is read back from its own code, and every valid code is the
/// code of the state it is read as.
pub proof fn lemma_state_code_round_trip(state: MessageState, code: u8)
    ensures
        is_state_code(state.code()),
        state_of_code(state.code()) == state,
        is_state_code(code) ==> state_of_code(code).code() == code,
{
}

} // verus!
