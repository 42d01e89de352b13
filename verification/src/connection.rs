//! Connections between clients and a server: the messages they exchange, and
//! what each side does on receiving one. Sending is left to the caller: a
//! client connection queues its outgoing messages, and a server handle
//! answers with the messages for the sender and for everyone else.

use crate::aper::{confirmed_dropped, replayed, root_outcome, Aper, AperClient, AperServer, AperSync};
use crate::order::Model;
use crate::store::{apply_mutations, combine_down_layers, empty_layer, snapshot_of, with_top, Mutation, StoreLayer};
use std::marker::PhantomData;
use vstd::prelude::*;

verus! {

/// The current time, in milliseconds since the Unix epoch
/// (`chrono::Utc::now`, then `timestamp_millis`). Nothing is claimed of the
/// value: it depends on the clock. (`Utc::now` panics when the system clock
/// reads before the epoch.)
#[verifier::external_body]
fn now_millis() -> i64 {
    chrono::Utc::now().timestamp_millis()
}

/// Who sent an intent, and when (milliseconds since the Unix epoch).
#[derive(Debug, Clone, Copy, PartialEq, Eq, Structural)]
pub struct IntentMetadata {
    pub timestamp: i64,
    pub client: Option<u32>,
}

impl IntentMetadata {
    pub fn new(client: Option<u32>, timestamp: i64) -> (r: IntentMetadata)
        ensures
            r.client == client,
            r.timestamp == timestamp,
    {
        IntentMetadata { timestamp, client }
    }

    /// Metadata stamped with the current time, from no client.
    pub fn now() -> (r: IntentMetadata)
        ensures
            r.client is None,
    {
        IntentMetadata::new(None, now_millis())
    }
}

/// What a client sends the server.
#[derive(Debug)]
pub enum MessageToServer {
    /// An intent, encoded, with the client version it was given.
    Intent { intent: Vec<u8>, client_version: u64, metadata: IntentMetadata },
    /// Send the whole state.
    RequestState { latest_version: u64 },
}

/// What the server tells a client.
#[derive(Debug)]
pub enum MessageToClientType {
    /// Mutations to apply to the confirmed state; `client_version` names
    /// the recipient's own intent they answer, if any.
    Apply { mutations: Vec<Mutation>, client_version: Option<u64>, server_version: u64 },
    /// The identifier the server gave the client.
    Hello { client_id: u32 },
}

/// A message to a client, stamped with the server's time (milliseconds
/// since the Unix epoch).
#[derive(Debug)]
pub struct MessageToClient {
    pub message: MessageToClientType,
    pub timestamp: i64,
}

impl Mutation {
    /// An exact copy.
    pub fn copy(&self) -> (r: Mutation)
        ensures
            r.prefix.model() == self.prefix.model(),
            r.entries.model() == self.entries.model(),
            r.entries.wf() == self.entries.wf(),
    {
        Mutation { prefix: self.prefix.duplicate(), entries: self.entries.copy() }
    }
}

/// Copies of `ms`, in order.
fn copy_mutations(ms: &Vec<Mutation>) -> (r: Vec<Mutation>)
    ensures
        r@.len() == ms@.len(),
        forall|i: int| 0 <= i < ms@.len() ==> {
            &&& (#[trigger] r@[i]).prefix.model() == ms@[i].prefix.model()
            &&& r@[i].entries.model() == ms@[i].entries.model()
            &&& r@[i].entries.wf() == ms@[i].entries.wf()
        },
{
    let mut r: Vec<Mutation> = Vec::new();
    let mut i: usize = 0;
    while i < ms.len()
        invariant
            i <= ms@.len(),
            r@.len() == i,
            forall|j: int| 0 <= j < i ==> {
                &&& (#[trigger] r@[j]).prefix.model() == ms@[j].prefix.model()
                &&& r@[j].entries.model() == ms@[j].entries.model()
                &&& r@[j].entries.wf() == ms@[j].entries.wf()
            },
        decreases ms.len() - i,
    {
        r.push(ms[i].copy());
        i = i + 1;
    }
    r
}

/// The client's side of a connection: the client, its identifier once the
/// server has said it, and the messages waiting to be sent.
pub struct ClientConnection<A: Aper> {
    pub client: AperClient<A>,
    pub client_id: Option<u32>,
    pub outbox: Vec<MessageToServer>,
}

impl<A: Aper> ClientConnection<A> {
    /// A connection for `client`; its first message asks for the state.
    pub fn new(client: AperClient<A>) -> (r: ClientConnection<A>)
        ensures
            r.client == client,
            r.client_id is None,
            r.outbox@.len() == 1,
            r.outbox@[0] == (MessageToServer::RequestState { latest_version: 0 }),
    {
        let mut outbox: Vec<MessageToServer> = Vec::new();
        outbox.push(MessageToServer::RequestState { latest_version: 0 });
        ClientConnection { client, client_id: None, outbox }
    }

    pub fn client_id(&self) -> (r: Option<u32>)
        ensures
            r == self.client_id,
    {
        self.client_id
    }

    /// The state at the root of the client's store.
    pub fn state(&self) -> (r: A)
        ensures
            r.prefix() == Seq::<Seq<u8>>::empty(),
    {
        self.client.state()
    }

    /// Applies `intent` speculatively and, when it applies, queues it for
    /// the server (`encoded` is its encoding), stamped with this client's
    /// identifier and the current time.
    pub fn apply(&mut self, intent: &A::Intent, encoded: Vec<u8>) -> (r: Result<(), A::Error>)
        requires
            old(self).client.wf(),
            old(self).client.next_client_version < u64::MAX,
        ensures
            final(self).client.wf(),
            final(self).client_id == old(self).client_id,
            final(self).client.verified_client_version == old(self).client.verified_client_version,
            final(self).client.verified_server_version == old(self).client.verified_server_version,
            match root_outcome::<A>(old(self).client.store.model(), *intent) {
                Ok(t) => {
                    &&& r is Ok
                    &&& final(self).client.next_client_version == old(self).client.next_client_version + 1
                    &&& final(self).client.intent_stack@.len() == old(self).client.intent_stack@.len() + 1
                    &&& final(self).client.intent_stack@.drop_last() == old(self).client.intent_stack@
                    &&& final(self).client.intent_stack@.last().intent == *intent
                    &&& final(self).client.intent_stack@.last().version == old(self).client.next_client_version
                    &&& final(self).client.store.model() == combine_down_layers(old(self).client.store.model().push(t))
                    &&& final(self).outbox@.len() == old(self).outbox@.len() + 1
                    &&& final(self).outbox@.drop_last() == old(self).outbox@
                    &&& final(self).outbox@.last() matches MessageToServer::Intent { intent: bytes, client_version, metadata }
                        && bytes == encoded && client_version == old(self).client.next_client_version
                        && metadata.client == old(self).client_id
                },
                Err(e) => {
                    &&& r == Err::<(), A::Error>(e)
                    &&& final(self).client.next_client_version == old(self).client.next_client_version
                    &&& final(self).client.intent_stack@ == old(self).client.intent_stack@
                    &&& final(self).client.store.model() == old(self).client.store.model()
                    &&& final(self).outbox@ == old(self).outbox@
                },
            },
    {
        let metadata = IntentMetadata::new(self.client_id, now_millis());
        let outcome = self.client.apply(intent);
        self.finish_apply(outcome, encoded, metadata)
    }

    /// Finishes sending an intent, given what the client's `apply` returned
    /// for it: the client version it was given is queued for the server
    /// with its encoding `encoded` and `metadata`; an error is returned
    /// and nothing is queued.
    pub fn finish_apply(&mut self, outcome: Result<u64, A::Error>, encoded: Vec<u8>, metadata: IntentMetadata) -> (r: Result<(), A::Error>)
        ensures
            final(self).client == old(self).client,
            final(self).client_id == old(self).client_id,
            match outcome {
                Ok(v) => {
                    &&& r is Ok
                    &&& final(self).outbox@ == old(self).outbox@.push(
                        MessageToServer::Intent { intent: encoded, client_version: v, metadata },
                    )
                },
                Err(e) => {
                    &&& r == Err::<(), A::Error>(e)
                    &&& final(self).outbox@ == old(self).outbox@
                },
            },
    {
        match outcome {
            Ok(version) => {
                self.outbox.push(MessageToServer::Intent { intent: encoded, client_version: version, metadata });
                Ok(())
            },
            Err(e) => Err(e),
        }
    }

    /// Handles a message from the server.
    pub fn receive(&mut self, message: &MessageToClient)
        requires
            old(self).client.wf(),
        ensures
            final(self).client.wf(),
            final(self).outbox == old(self).outbox,
            match message.message {
                MessageToClientType::Apply { mutations, client_version, server_version } => {
                    let base = old(self).client.store.model().drop_last();
                    let confirmed = with_top(base, apply_mutations(base.last(), mutations@));
                    &&& final(self).client_id == old(self).client_id
                    &&& final(self).client.verified_server_version == server_version
                    &&& final(self).client.verified_client_version == match client_version {
                        Some(v) => v,
                        None => old(self).client.verified_client_version,
                    }
                    &&& final(self).client.intent_stack@ == match client_version {
                        Some(v) => confirmed_dropped(old(self).client.intent_stack@, v),
                        None => old(self).client.intent_stack@,
                    }
                    &&& final(self).client.next_client_version == old(self).client.next_client_version
                    &&& final(self).client.store.model().drop_last() == confirmed
                    &&& final(self).client.store.model().len() == confirmed.len() + 1
                    &&& final(self).client.store.model() == if client_version matches Some(v)
                        && old(self).client.intent_stack@.len() > 0 && old(self).client.intent_stack@[0].version == v {
                        confirmed.push(empty_layer())
                    } else {
                        replayed::<A>(confirmed.push(empty_layer()), final(self).client.intent_stack@)
                    }
                },
                MessageToClientType::Hello { client_id } => {
                    &&& final(self).client_id == Some(client_id)
                    &&& final(self).client == old(self).client
                },
            },
    {
        match &message.message {
            MessageToClientType::Apply { mutations, client_version, server_version } => {
                self.client.mutate(mutations, *client_version, *server_version);
            },
            MessageToClientType::Hello { client_id } => {
                self.client_id = Some(*client_id);
            },
        }
    }
}

/// The server's side: the server, and the identifier the next client gets.
pub struct ServerConnection<A: Aper> {
    pub server: AperServer<A>,
    pub next_client_id: u32,
}

/// One connected client, as the server sees it.
pub struct ServerHandle<A: Aper> {
    pub client_id: u32,
    pub _phantom: PhantomData<A>,
}

/// The server's answer to one message: what the sender gets, and what every
/// other client gets.
pub struct ServerReply {
    pub to_sender: MessageToClient,
    pub to_others: Option<MessageToClient>,
}

impl<A: Aper> ServerConnection<A> {
    /// A fresh server; the first client gets identifier 0.
    pub fn new() -> (r: ServerConnection<A>)
        ensures
            r.server.wf(),
            r.server.version == 0,
            r.next_client_id == 0,
    {
        ServerConnection { server: AperServer::new(), next_client_id: 0 }
    }

    /// Connects a client: its handle, and the greeting that tells it its
    /// identifier. Identifiers count up, wrapping around.
    pub fn connect(&mut self) -> (r: (ServerHandle<A>, MessageToClient))
        ensures
            r.0.client_id == old(self).next_client_id,
            r.1.message == (MessageToClientType::Hello { client_id: old(self).next_client_id }),
            final(self).next_client_id == old(self).next_client_id.wrapping_add(1),
            final(self).server == old(self).server,
    {
        let client_id = self.next_client_id;
        self.next_client_id = self.next_client_id.wrapping_add(1);
        let hello = MessageToClient { message: MessageToClientType::Hello { client_id }, timestamp: now_millis() };
        (ServerHandle { client_id, _phantom: PhantomData }, hello)
    }

    /// The state at the root of the server's store.
    pub fn state(&self) -> (r: A)
        ensures
            r.prefix() == Seq::<Seq<u8>>::empty(),
    {
        self.server.state()
    }
}

impl<A: Aper> Default for ServerConnection<A> {
    fn default() -> (r: ServerConnection<A>)
        ensures
            r.server.wf(),
            r.server.version == 0,
            r.next_client_id == 0,
    {
        ServerConnection::new()
    }
}

impl<A: Aper> ServerHandle<A> {
    /// Handles a message from this handle's client. For an intent,
    /// `decoded` is the intent its bytes encode: the server applies it; on
    /// success the sender gets the mutations with its client version and
    /// everyone else gets them without, and on error the sender alone gets
    /// an empty acknowledgement. A request for the state answers the sender
    /// with a snapshot.
    pub fn receive(&mut self, server: &mut AperServer<A>, message: &MessageToServer, decoded: Option<A::Intent>) -> (r: ServerReply)
        requires
            old(server).wf(),
            old(server).version < u64::MAX,
            message is Intent ==> decoded is Some,
        ensures
            final(server).wf(),
            final(self).client_id == old(self).client_id,
            r.to_others matches Some(m) ==> m.timestamp == r.to_sender.timestamp,
            match *message {
                MessageToServer::Intent { client_version, .. } => match root_outcome::<A>(old(server).map.model(), decoded->Some_0) {
                    Ok(t) => {
                        &&& final(server).version == old(server).version + 1
                        &&& final(server).map.model() == combine_down_layers(old(server).map.model().push(t))
                        &&& r.to_sender.message matches MessageToClientType::Apply { mutations, client_version: cv, server_version }
                            && cv == Some(client_version) && server_version == old(server).version + 1
                        &&& r.to_others matches Some(m) && m.message matches MessageToClientType::Apply {
                            mutations: others,
                            client_version: None,
                            server_version,
                        } && server_version == old(server).version + 1 && exists|top: StoreLayer| {
                            &&& top.wf()
                            &&& top.model() == t
                            &&& #[trigger] snapshot_of(r.to_sender.message->Apply_mutations@, top)
                            &&& snapshot_of(others@, top)
                        }
                    },
                    Err(_) => {
                        &&& final(server).version == old(server).version
                        &&& final(server).map.model() == old(server).map.model()
                        &&& r.to_sender.message matches MessageToClientType::Apply { mutations, client_version: cv, server_version }
                            && mutations@.len() == 0 && cv == Some(client_version) && server_version == old(server).version
                        &&& r.to_others is None
                    },
                },
                MessageToServer::RequestState { .. } => {
                    &&& *final(server) == *old(server)
                    &&& r.to_others is None
                    &&& r.to_sender.message matches MessageToClientType::Apply { mutations, client_version: None, server_version }
                        && server_version == old(server).version && snapshot_of(mutations@, old(server).map.inner.layers@.last())
                },
            },
    {
        match message {
            MessageToServer::Intent { client_version, .. } => {
                let ghost given = decoded;
                let intent = match decoded {
                    Some(i) => i,
                    None => {
                        proof {
                            assert(false);
                        }
                        return ServerReply {
                            to_sender: MessageToClient {
                                message: MessageToClientType::Hello { client_id: self.client_id },
                                timestamp: 0,
                            },
                            to_others: None,
                        };
                    },
                };
                let result = server.apply(&intent);
                let time = now_millis();
                match result {
                    Err(_) => ServerReply {
                        to_sender: MessageToClient {
                            message: MessageToClientType::Apply {
                                mutations: Vec::new(),
                                client_version: Some(*client_version),
                                server_version: server.version(),
                            },
                            timestamp: time,
                        },
                        to_others: None,
                    },
                    Ok(mutations) => {
                        let version = server.version();
                        let others = copy_mutations(&mutations);
                        let ghost ms = mutations@;
                        let reply = ServerReply {
                            to_sender: MessageToClient {
                                message: MessageToClientType::Apply {
                                    mutations,
                                    client_version: Some(*client_version),
                                    server_version: version,
                                },
                                timestamp: time,
                            },
                            to_others: Some(MessageToClient {
                                message: MessageToClientType::Apply {
                                    mutations: others,
                                    client_version: None,
                                    server_version: version,
                                },
                                timestamp: time,
                            }),
                        };
                        proof {
                            let top = choose|top: StoreLayer| top.wf() && top.model() == root_outcome::<A>(
                                old(server).map.model(),
                                intent,
                            )->Ok_0 && #[trigger] snapshot_of(ms, top);
                            assert(intent == given->Some_0);
                            assert(snapshot_of(reply.to_others->Some_0.message->Apply_mutations@, top));
                            assert(snapshot_of(reply.to_sender.message->Apply_mutations@, top));
                        }
                        reply
                    },
                }
            },
            MessageToServer::RequestState { .. } => {
                let mutations = server.state_snapshot();
                let time = now_millis();
                ServerReply {
                    to_sender: MessageToClient {
                        message: MessageToClientType::Apply {
                            mutations,
                            client_version: None,
                            server_version: server.version(),
                        },
                        timestamp: time,
                    },
                    to_others: None,
                }
            },
        }
    }
}

} // verus!
