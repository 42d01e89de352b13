//! The server of a state machine: it holds the authoritative state, applies
//! the transitions clients send, and tells the others.

use crate::client::{client_step, consistent, ClientView};
use crate::messages::{ClientMessageView, MessageToClient, MessageToServer, ServerMessageView, StateVersionNumber};
use crate::state_machine::{StateMachine, TransitionView};
use vstd::prelude::*;

verus! {

/// The server's answer to one message: a reply to the sender, and what to
/// broadcast to every other client.
pub struct StateServerMessageResponse<S: StateMachine> {
    pub reply_message: MessageToClient<S>,
    pub broadcast_message: Option<MessageToClient<S>>,
}

/// What a response says.
pub struct ResponseView<S: StateMachine> {
    pub reply: ClientMessageView<S>,
    pub broadcast: Option<ClientMessageView<S>>,
}

impl<S: StateMachine> View for StateServerMessageResponse<S> {
    type V = ResponseView<S>;

    open spec fn view(&self) -> ResponseView<S> {
        ResponseView {
            reply: self.reply_message@,
            broadcast: match self.broadcast_message {
                Some(m) => Some(m@),
                None => None,
            },
        }
    }
}

/// The server's state, its version and its answer after handling `message`
/// at state `state` and version `version`.
pub open spec fn server_step<S: StateMachine>(state: S::V, version: u32, message: ServerMessageView<S>) -> (
    S::V,
    u32,
    ResponseView<S>,
) {
    match message {
        ServerMessageView::DoTransition { transition_number, transition } => {
            let next = S::next(state, transition)->Ok_0;
            let v = (version + 1) as u32;
            (
                next,
                v,
                ResponseView {
                    reply: ClientMessageView::ConfirmTransition { transition_number, version: v },
                    broadcast: Some(ClientMessageView::PeerTransition { transition, version: v }),
                },
            )
        },
        ServerMessageView::RequestState => (
            state,
            version,
            ResponseView { reply: ClientMessageView::SetState { state, version }, broadcast: None },
        ),
    }
}

/// The server can handle `message`: a transition must apply, and the
/// version must have room to grow.
pub open spec fn server_accepts<S: StateMachine>(state: S::V, version: u32, message: ServerMessageView<S>) -> bool {
    match message {
        ServerMessageView::DoTransition { transition, .. } => S::next(state, transition) is Ok && version < u32::MAX,
        ServerMessageView::RequestState => true,
    }
}

/// A transition that the server applies reaches every client in step with
/// it: a peer whose confirmed state and version are the server's takes the
/// broadcast to the server's new state and version, and so does the sender,
/// whose oldest pending transition it is, on the reply. Neither answers.
pub proof fn lemma_clients_follow_server<S: StateMachine>(
    state: S::V,
    version: u32,
    number: u32,
    transition: TransitionView<S>,
    peer: ClientView<S>,
    sender: ClientView<S>,
)
    requires
        S::next(state, transition) is Ok,
        version < u32::MAX,
        peer.golden == state,
        peer.version == version,
        sender.golden == state,
        sender.version == version,
        sender.transitions.len() > 0,
        sender.transitions[0] == (number, transition),
    ensures
        ({
            let (next, next_version, response) = server_step::<S>(
                state,
                version,
                ServerMessageView::DoTransition { transition_number: number, transition },
            );
            &&& response.broadcast matches Some(b) && {
                let (p, answer) = client_step(peer, b);
                p.golden == next && p.version == next_version && answer is None
            }
            &&& {
                let (c, answer) = client_step(sender, response.reply);
                c.golden == next && c.version == next_version && answer is None
            }
        }),
{
}

/// A client that asks for the state and receives the server's reply holds
/// the server's state and version, with nothing pending and its
/// transition counter reset.
pub proof fn lemma_request_state_resyncs<S: StateMachine>(state: S::V, version: u32, client: ClientView<S>)
    ensures
        ({
            let (next, next_version, response) = server_step::<S>(state, version, ServerMessageView::RequestState);
            let (c, answer) = client_step(client, response.reply);
            &&& next == state && next_version == version
            &&& response.broadcast is None
            &&& c.golden == state && c.optimistic == state && c.version == version
            &&& c.transitions.len() == 0
            &&& c.next_number == 0
            &&& consistent(c)
            &&& answer is None
        }),
{
}

/// The authoritative state and its version.
pub struct StateServer<S: StateMachine> {
    pub version: StateVersionNumber,
    pub state: S,
}

impl<S: StateMachine> StateServer<S> {
    /// A server at version 0 holding `state`.
    pub fn new(state: S) -> (r: StateServer<S>)
        ensures
            r.state == state,
            r.version.0 == 0,
    {
        StateServer { version: StateVersionNumber(0), state }
    }

    /// The current state.
    pub fn state(&self) -> (r: &S)
        ensures
            *r == self.state,
    {
        &self.state
    }

    /// Handles a message from a client.
    pub fn receive_message(&mut self, message: MessageToServer<S>) -> (r: StateServerMessageResponse<S>)
        requires
            server_accepts(old(self).state@, old(self).version.0, message@),
        ensures
            (final(self).state@, final(self).version.0, r@) == server_step(old(self).state@, old(self).version.0, message@),
    {
        match message {
            MessageToServer::DoTransition { transition_number, transition } => {
                match self.state.apply(&transition) {
                    Ok(state) => {
                        self.state = state;
                        self.version.0 = self.version.0 + 1;
                        StateServerMessageResponse {
                            reply_message: MessageToClient::ConfirmTransition {
                                transition_number,
                                version: self.version,
                            },
                            broadcast_message: Some(MessageToClient::PeerTransition { transition, version: self.version }),
                        }
                    },
                    Err(_) => {
                        proof {
                            assert(false);
                        }
                        StateServerMessageResponse {
                            reply_message: MessageToClient::ConfirmTransition {
                                transition_number,
                                version: self.version,
                            },
                            broadcast_message: None,
                        }
                    },
                }
            },
            MessageToServer::RequestState => StateServerMessageResponse {
                reply_message: MessageToClient::SetState { state: self.state.copy_state(), version: self.version },
                broadcast_message: None,
            },
        }
    }
}

impl<S: StateMachine + Default> Default for StateServer<S> {
    fn default() -> (r: StateServer<S>)
        ensures
            r.version.0 == 0,
            call_ensures(S::default, (), r.state),
    {
        StateServer { version: StateVersionNumber(0), state: S::default() }
    }
}

} // verus!
