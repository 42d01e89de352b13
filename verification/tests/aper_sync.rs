use aper::aper::{Aper, AperClient, AperServer, AperSync};
use aper::connection::{ClientConnection, MessageToClientType, MessageToServer, ServerConnection};
use aper::handle::StoreHandle;
use aper::store::Store;

/// A register holding a number, as decimal bytes under the key "n".
struct Register {
    handle: StoreHandle,
}

impl Register {
    fn value(&self, store: &Store) -> i64 {
        match self.handle.get(store, &b"n".to_vec()) {
            Some(b) => String::from_utf8(b).unwrap().parse().unwrap(),
            None => 0,
        }
    }
}

impl AperSync for Register {
    fn attach(handle: StoreHandle) -> Self {
        Register { handle }
    }
}

impl Aper for Register {
    type Intent = i64;
    type Error = ();

    fn copy_intent(intent: &i64) -> i64 {
        *intent
    }

    fn apply(&mut self, store: &mut Store, intent: &i64) -> Result<(), ()> {
        if *intent < 0 {
            return Err(());
        }
        let v = self.value(store) + intent;
        self.handle.set(store, b"n".to_vec(), v.to_string().into_bytes());
        Ok(())
    }
}

#[test]
fn server_applies_and_client_follows() {
    let mut server: AperServer<Register> = AperServer::new();
    let mut client: AperClient<Register> = AperClient::new();

    let ms = server.apply(&5).ok().unwrap();
    assert_eq!(server.version(), 1);
    assert_eq!(server.state().value(&server.map), 5);

    client.mutate(&ms, None, server.version());
    assert_eq!(client.state().value(&client.store), 5);
    assert_eq!(client.verified_server_version(), 1);

    assert!(server.apply(&-1).is_err());
    assert_eq!(server.version(), 1);
}

#[test]
fn client_speculates_then_is_confirmed() {
    let mut server: AperServer<Register> = AperServer::new();
    let mut client: AperClient<Register> = AperClient::new();

    let v = client.apply(&3).ok().unwrap();
    assert_eq!(v, 1);
    assert_eq!(client.state().value(&client.store), 3);
    assert_eq!(client.speculative_client_version(), 1);
    assert!(client.apply(&-2).is_err());
    assert_eq!(client.state().value(&client.store), 3);

    let ms = server.apply(&3).ok().unwrap();
    client.mutate(&ms, Some(v), server.version());
    assert_eq!(client.verified_client_version(), 1);
    assert_eq!(client.speculative_client_version(), 1);
    assert_eq!(client.state().value(&client.store), 3);
    assert_eq!(client.intent_stack.len(), 0);
}

#[test]
fn pending_intents_are_replayed_on_peer_mutations() {
    let mut server: AperServer<Register> = AperServer::new();
    let mut client: AperClient<Register> = AperClient::new();

    client.apply(&10).ok().unwrap();
    let ms = server.apply(&1).ok().unwrap();
    client.mutate(&ms, None, server.version());
    assert_eq!(client.state().value(&client.store), 11);
    assert_eq!(client.intent_stack.len(), 1);
}

#[test]
fn connections_exchange_messages() {
    let mut server: ServerConnection<Register> = ServerConnection::new();
    let (mut handle, hello) = server.connect();
    assert!(matches!(hello.message, MessageToClientType::Hello { client_id: 0 }));

    let mut client = ClientConnection::new(AperClient::<Register>::new());
    assert!(matches!(client.outbox[0], MessageToServer::RequestState { latest_version: 0 }));
    client.receive(&hello);
    assert_eq!(client.client_id(), Some(0));

    client.apply(&4, b"4".to_vec()).ok().unwrap();
    let sent = client.outbox.pop().unwrap();
    let reply = handle.receive(&mut server.server, &sent, Some(4));
    assert!(reply.to_others.is_some());
    client.receive(&reply.to_sender);
    assert_eq!(client.state().value(&client.client.store), 4);
    assert_eq!(server.state().value(&server.server.map), 4);

    let request = MessageToServer::RequestState { latest_version: 0 };
    let snapshot = handle.receive(&mut server.server, &request, None);
    assert!(snapshot.to_others.is_none());
    match snapshot.to_sender.message {
        MessageToClientType::Apply { mutations, client_version, server_version } => {
            assert_eq!(mutations.len(), 1);
            assert_eq!(client_version, None);
            assert_eq!(server_version, 1);
        }
        _ => panic!("expected a snapshot"),
    }

    let (second, _) = server.connect();
    assert_eq!(second.client_id, 1);
}

#[test]
fn finishing_an_intent_follows_its_outcome() {
    let mut server: AperServer<Register> = AperServer::new();
    server.map.push_overlay();
    let mut h = server.map.handle();
    h.set(&mut server.map, b"n".to_vec(), b"7".to_vec());
    assert!(server.finish_apply(Err(())).is_err());
    assert_eq!(server.map.inner.layers.len(), 1);
    assert_eq!(server.version(), 0);
    assert_eq!(server.state().value(&server.map), 0);

    server.map.push_overlay();
    h.set(&mut server.map, b"n".to_vec(), b"7".to_vec());
    let ms = server.finish_apply(Ok(())).ok().unwrap();
    assert_eq!(ms.len(), 1);
    assert_eq!(server.version(), 1);
    assert_eq!(server.state().value(&server.map), 7);

    let mut client: AperClient<Register> = AperClient::new();
    client.store.push_overlay();
    assert!(client.finish_apply(&2, Err(())).is_err());
    assert_eq!(client.store.inner.layers.len(), 2);
    assert_eq!(client.finish_apply(&2, Ok(())).ok(), Some(1));
    assert_eq!(client.intent_stack.len(), 1);

    let mut connection = ClientConnection::new(AperClient::<Register>::new());
    assert!(connection.finish_apply(Err(()), b"x".to_vec(), aper::connection::IntentMetadata::new(None, 5)).is_err());
    assert_eq!(connection.outbox.len(), 1);
    assert!(connection.finish_apply(Ok(9), b"x".to_vec(), aper::connection::IntentMetadata::new(None, 5)).is_ok());
    assert!(matches!(connection.outbox[1], MessageToServer::Intent { client_version: 9, .. }));
}

#[test]
fn finishing_a_replayed_intent_follows_its_outcome() {
    let mut client: AperClient<Register> = AperClient::new();
    client.store.push_overlay();
    let mut h = client.store.handle();
    h.set(&mut client.store, b"n".to_vec(), b"3".to_vec());
    client.finish_replay(Err(()));
    assert_eq!(client.store.inner.layers.len(), 2);
    assert_eq!(client.state().value(&client.store), 0);
    client.store.push_overlay();
    h.set(&mut client.store, b"n".to_vec(), b"3".to_vec());
    client.finish_replay(Ok(()));
    assert_eq!(client.store.inner.layers.len(), 2);
    assert_eq!(client.state().value(&client.store), 3);
}

#[test]
fn a_refused_intent_is_acknowledged_to_its_sender_alone() {
    let mut server: ServerConnection<Register> = ServerConnection::new();
    let (mut handle, _) = server.connect();
    let sent = MessageToServer::Intent {
        intent: b"-3".to_vec(),
        client_version: 7,
        metadata: aper::connection::IntentMetadata::new(Some(0), 0),
    };
    let reply = handle.receive(&mut server.server, &sent, Some(-3));
    assert!(reply.to_others.is_none());
    match reply.to_sender.message {
        MessageToClientType::Apply { mutations, client_version, server_version } => {
            assert!(mutations.is_empty());
            assert_eq!(client_version, Some(7));
            assert_eq!(server_version, 0);
        }
        _ => panic!("expected an acknowledgement"),
    }
    assert_eq!(server.server.version(), 0);

    let ok = MessageToServer::Intent {
        intent: b"2".to_vec(),
        client_version: 8,
        metadata: aper::connection::IntentMetadata::new(Some(0), 0),
    };
    let reply = handle.receive(&mut server.server, &ok, Some(2));
    match (reply.to_sender.message, reply.to_others.unwrap().message) {
        (
            MessageToClientType::Apply { mutations: mine, client_version: Some(8), server_version: 1 },
            MessageToClientType::Apply { mutations: theirs, client_version: None, server_version: 1 },
        ) => {
            assert_eq!(mine.len(), 1);
            assert_eq!(theirs.len(), 1);
        }
        _ => panic!("expected the mutations for everyone"),
    }
}

#[test]
fn a_peer_update_replays_pending_intents_on_the_overlay() {
    let mut server: ServerConnection<Register> = ServerConnection::new();
    let (mut peer, _) = server.connect();
    let mut client = ClientConnection::new(AperClient::<Register>::new());
    client.apply(&2, b"2".to_vec()).ok().unwrap();
    let peer_intent = MessageToServer::Intent {
        intent: b"5".to_vec(),
        client_version: 1,
        metadata: aper::connection::IntentMetadata::new(Some(1), 0),
    };
    let reply = peer.receive(&mut server.server, &peer_intent, Some(5));
    client.receive(&reply.to_others.unwrap());
    assert_eq!(client.client.intent_stack.len(), 1);
    assert_eq!(client.state().value(&client.client.store), 7);
    assert_eq!(client.client.next_client_version, 2);
}
