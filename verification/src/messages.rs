//! The messages that clients and the server of a state machine exchange.

use crate::state_machine::{StateMachine, TransitionView};
use vstd::prelude::*;

verus! {

/// The version of the server's state: how many transitions it has applied.
#[derive(Debug, PartialEq, Eq, Structural, Clone, Copy)]
pub struct StateVersionNumber(pub u32);

impl StateVersionNumber {
    /// The version just before this one.
    pub fn prior_version(&self) -> (r: StateVersionNumber)
        requires
            self.0 > 0,
        ensures
            r.0 == self.0 - 1,
    {
        StateVersionNumber(self.0 - 1)
    }
}

impl Default for StateVersionNumber {
    fn default() -> (r: StateVersionNumber)
        ensures
            r.0 == 0,
    {
        StateVersionNumber(0)
    }
}

/// The number a client gives each transition it sends, counting from zero.
#[derive(Debug, PartialEq, Eq, Structural, Clone, Copy)]
pub struct ClientTransitionNumber(pub u32);

impl Default for ClientTransitionNumber {
    fn default() -> (r: ClientTransitionNumber)
        ensures
            r.0 == 0,
    {
        ClientTransitionNumber(0)
    }
}

/// What a client sends the server.
pub enum MessageToServer<S: StateMachine> {
    /// Apply a transition this client made.
    DoTransition { transition_number: ClientTransitionNumber, transition: S::Transition },
    /// Send the whole state again.
    RequestState,
}

/// What the server sends a client.
pub enum MessageToClient<S: StateMachine> {
    /// Set the local state; the transition counter is reset and the
    /// client's own pending transitions are dropped.
    SetState { state: S, version: StateVersionNumber },
    /// Apply a transition made by a peer.
    PeerTransition { transition: S::Transition, version: StateVersionNumber },
    /// A transition this client made was applied.
    ConfirmTransition { transition_number: ClientTransitionNumber, version: StateVersionNumber },
    /// A transition this client made conflicted and was not applied.
    Conflict { transition_number: ClientTransitionNumber, conflict: S::Conflict },
}

/// What a message to the server says.
pub enum ServerMessageView<S: StateMachine> {
    DoTransition { transition_number: u32, transition: TransitionView<S> },
    RequestState,
}

/// What a message to a client says.
pub enum ClientMessageView<S: StateMachine> {
    SetState { state: S::V, version: u32 },
    PeerTransition { transition: TransitionView<S>, version: u32 },
    ConfirmTransition { transition_number: u32, version: u32 },
    Conflict { transition_number: u32, conflict: S::Conflict },
}

impl<S: StateMachine> View for MessageToServer<S> {
    type V = ServerMessageView<S>;

    open spec fn view(&self) -> ServerMessageView<S> {
        match self {
            MessageToServer::DoTransition { transition_number, transition } => ServerMessageView::DoTransition {
                transition_number: transition_number.0,
                transition: transition@,
            },
            MessageToServer::RequestState => ServerMessageView::RequestState,
        }
    }
}

impl<S: StateMachine> View for MessageToClient<S> {
    type V = ClientMessageView<S>;

    open spec fn view(&self) -> ClientMessageView<S> {
        match self {
            MessageToClient::SetState { state, version } => ClientMessageView::SetState { state: state@, version: version.0 },
            MessageToClient::PeerTransition { transition, version } => ClientMessageView::PeerTransition {
                transition: transition@,
                version: version.0,
            },
            MessageToClient::ConfirmTransition { transition_number, version } => ClientMessageView::ConfirmTransition {
                transition_number: transition_number.0,
                version: version.0,
            },
            MessageToClient::Conflict { transition_number, conflict } => ClientMessageView::Conflict {
                transition_number: transition_number.0,
                conflict: *conflict,
            },
        }
    }
}

/// The view of a message that may be absent.
pub open spec fn reply_view<S: StateMachine>(m: Option<MessageToServer<S>>) -> Option<ServerMessageView<S>> {
    match m {
        Some(x) => Some(x@),
        None => None,
    }
}

} // verus!
