use aper::state_machine::{NeverConflict, StateMachine};
use aper::client::StateClient;
use aper::counter::{Counter, CounterTransition};
use aper::messages::{ClientTransitionNumber, MessageToClient, MessageToServer, StateVersionNumber};
use aper::server::{StateServer, StateServerMessageResponse};

#[test]
fn test_simple_state() {
    let counter = Counter::default();
    let mut m1 = StateClient::<Counter>::default();

    assert!(m1
        .receive_message_from_server(MessageToClient::SetState {
            state: counter,
            version: StateVersionNumber(0),
        })
        .is_none());

    assert_eq!(0, m1.state().value());

    m1.push_transition(Counter::increment(4)).unwrap();

    assert_eq!(4, m1.state().value());
}

#[test]
pub fn basic_messages() {
    let counter = Counter::new(110);
    let mut server: StateServer<Counter> = StateServer::new(counter);

    let result = server.receive_message(MessageToServer::RequestState);

    if let StateServerMessageResponse {
        reply_message: MessageToClient::SetState { state, version },
        broadcast_message: None,
    } = result
    {
        assert_eq!(0, version.0);
        assert_eq!(110, state.value());
    } else {
        panic!("Response did not match pattern.");
    }

    let result = server.receive_message(MessageToServer::DoTransition {
        transition_number: ClientTransitionNumber(1),
        transition: Counter::increment(3),
    });

    if let StateServerMessageResponse {
        reply_message:
            MessageToClient::ConfirmTransition {
                transition_number: ClientTransitionNumber(1),
                version: StateVersionNumber(1),
            },
        broadcast_message:
            Some(MessageToClient::PeerTransition {
                transition,
                version: StateVersionNumber(1),
            }),
    } = result
    {
        assert_eq!(Counter::increment(3), transition);
    } else {
        panic!("Response did not match pattern.");
    }

    assert_eq!(113, server.state.value());
    assert_eq!(1, server.version.0);
}

#[test]
fn counter_transitions_and_wrapping() {
    let c = Counter::new(10);
    assert_eq!(c.apply(&Counter::increment(5)).unwrap().value(), 15);
    assert_eq!(c.apply(&Counter::decrement(15)).unwrap().value(), -5);
    assert_eq!(c.apply(&Counter::set(42)).unwrap().value(), 42);
    assert_eq!(Counter::new(i64::MAX).apply(&Counter::increment(1)).unwrap().value(), i64::MIN);
    assert_eq!(Counter::set(3), CounterTransition::SetValue(3));
}

#[test]
fn peer_transition_follows_server() {
    let mut server = StateServer::new(Counter::new(0));
    let mut sender = StateClient::new(Counter::new(0), StateVersionNumber(0));
    let mut peer = StateClient::new(Counter::new(0), StateVersionNumber(0));

    let message = sender.push_transition(Counter::increment(2)).unwrap();
    assert_eq!(2, sender.state().value());
    let response = server.receive_message(message);
    assert!(sender.receive_message_from_server(response.reply_message).is_none());
    assert!(peer.receive_message_from_server(response.broadcast_message.unwrap()).is_none());
    assert_eq!(2, peer.state().value());
    assert_eq!(2, sender.golden_state.value());
    assert_eq!(1, peer.version.0);
    assert_eq!(1, sender.version.0);
    assert_eq!(0, sender.transitions.len());
}

#[test]
fn peer_transition_replays_pending() {
    let mut client = StateClient::new(Counter::new(1), StateVersionNumber(4));
    client.push_transition(Counter::increment(10)).unwrap();
    let reply = client.receive_message_from_server(MessageToClient::PeerTransition {
        transition: Counter::set(100),
        version: StateVersionNumber(5),
    });
    assert!(reply.is_none());
    assert_eq!(100, client.golden_state.value());
    assert_eq!(110, client.state().value());
}

#[test]
fn out_of_order_messages_request_state() {
    let mut client = StateClient::new(Counter::new(1), StateVersionNumber(4));
    let reply = client.receive_message_from_server(MessageToClient::PeerTransition {
        transition: Counter::set(100),
        version: StateVersionNumber(9),
    });
    assert!(matches!(reply, Some(MessageToServer::RequestState)));
    let reply = client.receive_message_from_server(MessageToClient::ConfirmTransition {
        transition_number: ClientTransitionNumber(0),
        version: StateVersionNumber(5),
    });
    assert!(matches!(reply, Some(MessageToServer::RequestState)));
    client.push_transition(Counter::increment(1)).unwrap();
    let reply = client.receive_message_from_server(MessageToClient::ConfirmTransition {
        transition_number: ClientTransitionNumber(3),
        version: StateVersionNumber(5),
    });
    assert!(matches!(reply, Some(MessageToServer::RequestState)));
    assert_eq!(0, client.transitions.len());
}

#[test]
fn conflict_drops_pending_transition() {
    let mut client = StateClient::new(Counter::new(1), StateVersionNumber(0));
    client.push_transition(Counter::increment(1)).unwrap();
    let reply = client.receive_message_from_server(MessageToClient::Conflict {
        transition_number: ClientTransitionNumber(0),
        conflict: NeverConflict,
    });
    assert!(reply.is_none());
    assert_eq!(0, client.transitions.len());
    assert_eq!(1, client.next_transition.0);
}

#[test]
fn version_numbers() {
    assert_eq!(StateVersionNumber(5).prior_version(), StateVersionNumber(4));
    assert_eq!(StateVersionNumber::default(), StateVersionNumber(0));
    assert_eq!(ClientTransitionNumber::default(), ClientTransitionNumber(0));
}

#[test]
fn set_state_resets_transition_counter() {
    let mut client = StateClient::new(Counter::new(0), StateVersionNumber(0));
    for _ in 0..5 {
        client.push_transition(Counter::increment(1)).unwrap();
    }
    assert_eq!(client.next_transition.0, 5);
    let reply = client.receive_message_from_server(MessageToClient::SetState {
        state: Counter::new(7),
        version: StateVersionNumber(3),
    });
    assert!(reply.is_none());
    assert_eq!(7, client.state().value());
    assert_eq!(client.next_transition(), ClientTransitionNumber(0));
    let reply = client.receive_message_from_server(MessageToClient::ConfirmTransition {
        transition_number: ClientTransitionNumber(0),
        version: StateVersionNumber(4),
    });
    assert!(matches!(reply, Some(MessageToServer::RequestState)));
}

#[test]
fn transition_numbers_count_up_from_zero() {
    let mut client = StateClient::new(Counter::new(0), StateVersionNumber(0));
    assert_eq!(client.next_transition(), ClientTransitionNumber(0));
    assert_eq!(client.next_transition(), ClientTransitionNumber(1));
    assert_eq!(client.next_transition(), ClientTransitionNumber(2));
    assert_eq!(0, client.state().value());
}
