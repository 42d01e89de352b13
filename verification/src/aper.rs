//! Clients and servers of a state kept in a store. The server applies
//! intents and sends the mutations they made; a client applies its own
//! intents speculatively on an overlay, and applies the server's mutations
//! beneath it as they come.

use crate::handle::StoreHandle;
use crate::order::Model;
use crate::store::{apply_mutations, combine_down_layers, empty_layer, snapshot_of, with_top, LayerModel, Mutation, Store, StoreLayer};
use std::collections::VecDeque;
use std::marker::PhantomData;
use vstd::prelude::*;

verus! {

/// A type whose value lives in a store, reached through a handle.
pub trait AperSync: Sized {
    /// The prefix of the place in the store where this value lives; an
    /// implementation states it (by default nothing is known of it).
    closed spec fn prefix(&self) -> Seq<Seq<u8>> {
        arbitrary()
    }

    /// The value at the place `handle` leads to.
    fn attach(handle: StoreHandle) -> (r: Self)
        ensures
            r.prefix() == handle.prefix.model(),
    ;

    /// Registers `listener` to be alerted when this value changes; by
    /// default, nothing is registered.
    fn listen(&self, store: &mut Store, listener: u64) {
    }
}

/// A state in a store that intents change.
pub trait Aper: AperSync {
    type Intent;
    type Error;

    /// A copy of an intent, kept while the intent itself is sent on.
    fn copy_intent(intent: &Self::Intent) -> (r: Self::Intent)
        ensures
            r == *intent,
    ;

    /// What `apply` does for the state at `prefix`, given `intent`, to a
    /// store whose layers are `layers`: the top layer it leaves, or the
    /// error it refuses the intent with. An implementation states it (by
    /// default nothing is known of it).
    closed spec fn outcome(prefix: Seq<Seq<u8>>, layers: Seq<LayerModel>, intent: Self::Intent) -> Result<LayerModel, Self::Error> {
        arbitrary()
    }

    /// Applies `intent`, writing its changes to the top layer of `store`
    /// (and to no other layer); an error means the intent is refused. What
    /// it returns and leaves in the top layer is its `outcome`.
    fn apply(&mut self, store: &mut Store, intent: &Self::Intent) -> (r: Result<(), Self::Error>)
        requires
            old(store).wf(),
            old(store).model().len() > 0,
        ensures
            final(store).wf(),
            final(store).model().len() == old(store).model().len(),
            final(store).model().drop_last() == old(store).model().drop_last(),
            match r {
                Ok(()) => Self::outcome(old(self).prefix(), old(store).model(), *intent) == Ok::<LayerModel, Self::Error>(
                    final(store).model().last(),
                ),
                Err(e) => Self::outcome(old(self).prefix(), old(store).model(), *intent) == Err::<LayerModel, Self::Error>(e),
            },
    ;
}

/// What applying `intent` to the state at the root of a store whose layers
/// are `layers` gives, on an overlay pushed for it: the layer it writes, or
/// the error.
pub open spec fn root_outcome<A: Aper>(layers: Seq<LayerModel>, intent: A::Intent) -> Result<LayerModel, A::Error> {
    A::outcome(Seq::empty(), layers.push(empty_layer()), intent)
}

/// The layers after `intent` is applied again on an overlay of its own:
/// when it applies, the layer it writes is folded into the top layer; when
/// it is refused, the layers are as they were.
pub open spec fn replay_step<A: Aper>(layers: Seq<LayerModel>, intent: A::Intent) -> Seq<LayerModel> {
    match root_outcome::<A>(layers, intent) {
        Ok(t) => combine_down_layers(layers.push(t)),
        Err(_) => layers,
    }
}

/// The layers after the pending `intents` are applied again, oldest first,
/// each on an overlay of its own: one that applies is folded into the top
/// layer, one that is refused leaves the layers as they were.
pub open spec fn replayed<A: Aper>(layers: Seq<LayerModel>, intents: Seq<SpeculativeIntent<A::Intent>>) -> Seq<LayerModel>
    decreases intents.len(),
{
    if intents.len() == 0 {
        layers
    } else {
        let before = replayed::<A>(layers, intents.drop_last());
        match root_outcome::<A>(before, intents.last().intent) {
            Ok(t) => combine_down_layers(before.push(t)),
            Err(_) => before,
        }
    }
}

/// Replaying pending intents goes oldest first: replaying `first` and then
/// `rest` is replaying them all, so each intent acts on what the older ones
/// left; no intent pending replays to the layers as they are, and one
/// intent replays as its own step.
pub proof fn lemma_replay_oldest_first<A: Aper>(
    layers: Seq<LayerModel>,
    first: Seq<SpeculativeIntent<A::Intent>>,
    rest: Seq<SpeculativeIntent<A::Intent>>,
    i: SpeculativeIntent<A::Intent>,
)
    ensures
        replayed::<A>(layers, first + rest) == replayed::<A>(replayed::<A>(layers, first), rest),
        replayed::<A>(layers, Seq::empty()) == layers,
        replayed::<A>(layers, seq![i]) == replay_step::<A>(layers, i.intent),
        replayed::<A>(layers, first.push(i)) == replay_step::<A>(replayed::<A>(layers, first), i.intent),
    decreases rest.len(),
{
    assert(seq![i].drop_last() =~= Seq::<SpeculativeIntent<A::Intent>>::empty());
    assert(first.push(i).drop_last() =~= first);
    if rest.len() == 0 {
        assert(first + rest =~= first);
    } else {
        lemma_replay_oldest_first::<A>(layers, first, rest.drop_last(), i);
        assert((first + rest).drop_last() =~= first + rest.drop_last());
        assert((first + rest).last() == rest.last());
    }
}

/// Two pending intents replay as the older one's step and then the newer
/// one's, so where both apply the newer one acts last.
pub proof fn lemma_replay_two<A: Aper>(
    layers: Seq<LayerModel>,
    older: SpeculativeIntent<A::Intent>,
    newer: SpeculativeIntent<A::Intent>,
)
    ensures
        replayed::<A>(layers, seq![older, newer]) == replay_step::<A>(replay_step::<A>(layers, older.intent), newer.intent),
{
    lemma_replay_oldest_first::<A>(layers, Seq::empty(), Seq::empty(), older);
    lemma_replay_oldest_first::<A>(layers, seq![older], Seq::empty(), newer);
    assert(seq![older].push(newer) =~= seq![older, newer]);
}

/// An intent applied locally that the server has not confirmed yet, with
/// the client version it was given.
pub struct SpeculativeIntent<I> {
    pub intent: I,
    pub version: u64,
}

/// The pending intents after the server confirms client version
/// `version`: the oldest one goes if it is that version; otherwise every
/// one up to that version goes.
pub open spec fn confirmed_dropped<I>(stack: Seq<SpeculativeIntent<I>>, version: u64) -> Seq<SpeculativeIntent<I>> {
    if stack.len() > 0 && stack[0].version == version {
        stack.drop_first()
    } else {
        dropped_up_to(stack, version)
    }
}

/// `stack` without its leading intents of version at most `version`.
pub open spec fn dropped_up_to<I>(stack: Seq<SpeculativeIntent<I>>, version: u64) -> Seq<SpeculativeIntent<I>>
    decreases stack.len(),
{
    if stack.len() > 0 && stack[0].version <= version {
        dropped_up_to(stack.drop_first(), version)
    } else {
        stack
    }
}

/// Folding a layer down onto layers leaves all but their top layer as they
/// were, and their number too.
proof fn lemma_fold_keeps_lower(layers: Seq<LayerModel>, t: LayerModel)
    requires
        layers.len() > 0,
    ensures
        combine_down_layers(layers.push(t)).len() == layers.len(),
        combine_down_layers(layers.push(t)).drop_last() == layers.drop_last(),
{
    let x = layers.push(t);
    assert(x.drop_last() =~= layers);
    assert(combine_down_layers(x).drop_last() =~= layers.drop_last());
}

/// A client: the store holds the confirmed state below a speculative overlay
/// where its own pending intents are applied.
pub struct AperClient<A: Aper> {
    pub store: Store,
    pub intent_stack: VecDeque<SpeculativeIntent<A::Intent>>,
    /// The next unused client version number.
    pub next_client_version: u64,
    /// The highest client version the server has confirmed.
    pub verified_client_version: u64,
    /// The highest server version the server has confirmed.
    pub verified_server_version: u64,
}

impl<A: Aper> AperClient<A> {
    /// The client is ready for use: its store is well formed and holds the
    /// confirmed layer below the speculative overlay.
    pub open spec fn wf(&self) -> bool {
        self.store.wf() && self.store.model().len() >= 2
    }

    /// A client with an empty confirmed layer and an empty overlay.
    pub fn new() -> (r: AperClient<A>)
        ensures
            r.wf(),
            r.store.model() == seq![empty_layer(), empty_layer()],
            r.intent_stack@.len() == 0,
            r.next_client_version == 1,
            r.verified_client_version == 0,
            r.verified_server_version == 0,
    {
        let mut store = Store::new();
        store.push_overlay();
        AperClient {
            store,
            intent_stack: VecDeque::new(),
            next_client_version: 1,
            verified_client_version: 0,
            verified_server_version: 0,
        }
    }

    /// The store.
    pub fn store(&self) -> (r: &Store)
        ensures
            *r == self.store,
    {
        &self.store
    }

    /// The state at the root of the store.
    pub fn state(&self) -> (r: A)
        ensures
            r.prefix() == Seq::<Seq<u8>>::empty(),
    {
        A::attach(self.store.handle())
    }

    pub fn verified_client_version(&self) -> (r: u64)
        ensures
            r == self.verified_client_version,
    {
        self.verified_client_version
    }

    /// The version of the newest pending intent, or the confirmed client
    /// version when none is pending.
    pub fn speculative_client_version(&self) -> (r: u64)
        ensures
            r == if self.intent_stack@.len() == 0 {
                self.verified_client_version
            } else {
                self.intent_stack@.last().version
            },
    {
        let n = self.intent_stack.len();
        if n == 0 {
            self.verified_client_version
        } else {
            self.intent_stack[n - 1].version
        }
    }

    pub fn verified_server_version(&self) -> (r: u64)
        ensures
            r == self.verified_server_version,
    {
        self.verified_server_version
    }

    /// Applies `intent` speculatively, on an overlay of its own: when the
    /// state applies it (its `outcome` is a layer), that layer is folded
    /// into the speculative overlay, the intent queued as pending, and its
    /// client version returned; when the state refuses it, the error is
    /// returned and the store is as it was. The prefixes it changed stay
    /// marked for the caller to notify.
    pub fn apply(&mut self, intent: &A::Intent) -> (r: Result<u64, A::Error>)
        requires
            old(self).wf(),
            old(self).next_client_version < u64::MAX,
        ensures
            final(self).wf(),
            final(self).verified_client_version == old(self).verified_client_version,
            final(self).verified_server_version == old(self).verified_server_version,
            match root_outcome::<A>(old(self).store.model(), *intent) {
                Ok(t) => {
                    &&& r == Ok::<u64, A::Error>(old(self).next_client_version)
                    &&& final(self).next_client_version == old(self).next_client_version + 1
                    &&& final(self).intent_stack@ == old(self).intent_stack@.push(
                        SpeculativeIntent { intent: *intent, version: old(self).next_client_version },
                    )
                    &&& final(self).store.model() == combine_down_layers(old(self).store.model().push(t))
                },
                Err(e) => {
                    &&& r == Err::<u64, A::Error>(e)
                    &&& final(self).next_client_version == old(self).next_client_version
                    &&& final(self).intent_stack@ == old(self).intent_stack@
                    &&& final(self).store.model() == old(self).store.model()
                },
            },
    {
        let ghost before = self.store.model();
        self.store.push_overlay();
        let mut sm = A::attach(self.store.handle());
        let outcome = sm.apply(&mut self.store, intent);
        let ghost top = self.store.model().last();
        assert(before.push(empty_layer()).drop_last() =~= before);
        assert(self.store.model() =~= before.push(top));
        let r = self.finish_apply(intent, outcome);
        proof {
            if r is Ok {
                lemma_fold_keeps_lower(before, top);
                assert(before.push(top).drop_last() =~= before);
            }
        }
        r
    }

    /// Finishes applying `intent`, given what the state's `apply` returned
    /// after writing to the overlay pushed for it (the top layer): on
    /// success that layer is folded into the speculative overlay below it,
    /// the intent is queued under the next client version, which is
    /// returned; on error that layer is dropped and the error returned.
    pub fn finish_apply(&mut self, intent: &A::Intent, outcome: Result<(), A::Error>) -> (r: Result<u64, A::Error>)
        requires
            old(self).store.wf(),
            old(self).store.model().len() >= 3,
            old(self).next_client_version < u64::MAX,
        ensures
            final(self).wf(),
            final(self).verified_client_version == old(self).verified_client_version,
            final(self).verified_server_version == old(self).verified_server_version,
            match outcome {
                Ok(()) => {
                    &&& r == Ok::<u64, A::Error>(old(self).next_client_version)
                    &&& final(self).next_client_version == old(self).next_client_version + 1
                    &&& final(self).intent_stack@ == old(self).intent_stack@.push(
                        SpeculativeIntent { intent: *intent, version: old(self).next_client_version },
                    )
                    &&& final(self).store.model() == combine_down_layers(old(self).store.model())
                },
                Err(e) => {
                    &&& r == Err::<u64, A::Error>(e)
                    &&& final(self).next_client_version == old(self).next_client_version
                    &&& final(self).intent_stack@ == old(self).intent_stack@
                    &&& final(self).store.model() == old(self).store.model().drop_last()
                },
            },
    {
        match outcome {
            Err(e) => {
                self.store.pop_overlay();
                Err(e)
            },
            Ok(()) => {
                let version = self.next_client_version;
                self.intent_stack.push_back(SpeculativeIntent { intent: A::copy_intent(intent), version });
                self.next_client_version = self.next_client_version + 1;
                self.store.combine_down();
                Ok(version)
            },
        }
    }

    /// Applies mutations the server verified: the overlay is dropped, the
    /// mutations are applied to the confirmed layer, a fresh overlay is
    /// pushed, confirmed intents leave the queue, and (unless the oldest
    /// pending intent was the one confirmed) the rest are applied again on
    /// the overlay. The prefixes changed stay marked for the caller to
    /// notify.
    pub fn mutate(&mut self, mutations: &Vec<Mutation>, client_version: Option<u64>, server_version: u64)
        requires
            old(self).wf(),
        ensures
            final(self).wf(),
            final(self).verified_server_version == server_version,
            final(self).verified_client_version == match client_version {
                Some(v) => v,
                None => old(self).verified_client_version,
            },
            final(self).next_client_version == old(self).next_client_version,
            final(self).intent_stack@ == match client_version {
                Some(v) => confirmed_dropped(old(self).intent_stack@, v),
                None => old(self).intent_stack@,
            },
            ({
                let base = old(self).store.model().drop_last();
                let confirmed = with_top(base, apply_mutations(base.last(), mutations@));
                &&& final(self).store.model().len() == confirmed.len() + 1
                &&& final(self).store.model().drop_last() == confirmed
                &&& final(self).store.model() == if client_version matches Some(v) && old(self).intent_stack@.len() > 0
                    && old(self).intent_stack@[0].version == v {
                    confirmed.push(empty_layer())
                } else {
                    replayed::<A>(confirmed.push(empty_layer()), final(self).intent_stack@)
                }
            }),
    {
        let ghost base = old(self).store.model().drop_last();
        let ghost confirmed = with_top(base, apply_mutations(base.last(), mutations@));
        self.store.pop_overlay();
        self.verified_server_version = server_version;
        self.store.mutate(mutations);
        self.store.push_overlay();
        assert(self.store.model().drop_last() =~= confirmed);
        assert(self.store.model() =~= confirmed.push(empty_layer()));
        if let Some(version) = client_version {
            self.verified_client_version = version;
            if self.intent_stack.len() > 0 {
                if self.intent_stack[0].version == version {
                    let _ = self.intent_stack.pop_front();
                    return;
                }
            }
            let ghost start = self.intent_stack@;
            while self.intent_stack.len() > 0
                invariant_except_break
                    dropped_up_to(self.intent_stack@, version) == dropped_up_to(start, version),
                invariant
                    self.store.wf(),
                    self.store.model().len() == confirmed.len() + 1,
                    self.store.model().drop_last() == confirmed,
                    self.store.model() == confirmed.push(empty_layer()),
                    self.verified_server_version == server_version,
                    self.verified_client_version == version,
                    self.next_client_version == old(self).next_client_version,
                ensures
                    self.intent_stack@ == dropped_up_to(start, version),
                decreases self.intent_stack@.len(),
            {
                if self.intent_stack[0].version > version {
                    break;
                }
                let ghost s = self.intent_stack@;
                let _ = self.intent_stack.pop_front();
                assert(self.intent_stack@ =~= s.drop_first());
            }
        }
        let ghost vcv = self.verified_client_version;
        let ghost stack = self.intent_stack@;
        let ghost start = self.store.model();
        assert(start == confirmed.push(empty_layer()));
        assert(stack.take(0) =~= Seq::<SpeculativeIntent<A::Intent>>::empty());
        let mut i: usize = 0;
        while i < self.intent_stack.len()
            invariant
                self.store.wf(),
                self.store.model().len() == confirmed.len() + 1,
                self.store.model().drop_last() == confirmed,
                self.store.model() == replayed::<A>(start, stack.take(i as int)),
                self.verified_server_version == server_version,
                self.verified_client_version == vcv,
                self.next_client_version == old(self).next_client_version,
                self.intent_stack@ == stack,
                i <= stack.len(),
            decreases self.intent_stack@.len() - i,
        {
            let ghost before = self.store.model();
            self.store.push_overlay();
            let mut sm = A::attach(self.store.handle());
            let outcome = sm.apply(&mut self.store, &self.intent_stack[i].intent);
            let ghost top = self.store.model().last();
            assert(before.push(empty_layer()).drop_last() =~= before);
            assert(self.store.model() =~= before.push(top));
            self.finish_replay(outcome);
            proof {
                if outcome is Ok {
                    lemma_fold_keeps_lower(before, top);
                }
                assert(stack.take(i + 1).drop_last() =~= stack.take(i as int));
                assert(stack.take(i + 1).last() == stack[i as int]);
            }
            i = i + 1;
        }
        assert(stack.take(i as int) =~= stack);
    }

    /// Finishes applying a pending intent again, given what the state's
    /// `apply` returned after writing to the working layer pushed for it
    /// (the top layer): on success that layer is folded into the overlay
    /// below it; on error it is dropped. Nothing else changes.
    pub fn finish_replay(&mut self, outcome: Result<(), A::Error>)
        requires
            old(self).store.wf(),
            old(self).store.model().len() >= 2,
        ensures
            final(self).store.wf(),
            final(self).store.model() == match outcome {
                Ok(()) => combine_down_layers(old(self).store.model()),
                Err(_) => old(self).store.model().drop_last(),
            },
            final(self).intent_stack@ == old(self).intent_stack@,
            final(self).next_client_version == old(self).next_client_version,
            final(self).verified_client_version == old(self).verified_client_version,
            final(self).verified_server_version == old(self).verified_server_version,
    {
        match outcome {
            Err(_) => self.store.pop_overlay(),
            Ok(()) => self.store.combine_down(),
        }
    }
}

impl<A: Aper> Default for AperClient<A> {
    fn default() -> (r: AperClient<A>)
        ensures
            r.wf(),
            r.store.model() == seq![empty_layer(), empty_layer()],
            r.intent_stack@.len() == 0,
            r.next_client_version == 1,
            r.verified_client_version == 0,
            r.verified_server_version == 0,
    {
        AperClient::new()
    }
}

/// The server: one layer of state, and the number of intents applied.
pub struct AperServer<A: Aper> {
    pub map: Store,
    pub version: u64,
    pub _phantom: PhantomData<A>,
}

impl<A: Aper> AperServer<A> {
    pub open spec fn wf(&self) -> bool {
        self.map.wf() && self.map.model().len() > 0
    }

    /// A server with an empty store at version 0.
    pub fn new() -> (r: AperServer<A>)
        ensures
            r.wf(),
            r.map.model() == seq![empty_layer()],
            r.version == 0,
    {
        AperServer { map: Store::new(), version: 0, _phantom: PhantomData }
    }

    pub fn version(&self) -> (r: u64)
        ensures
            r == self.version,
    {
        self.version
    }

    /// The whole state, as the mutations that rebuild it.
    pub fn state_snapshot(&self) -> (r: Vec<Mutation>)
        requires
            self.wf(),
        ensures
            snapshot_of(r@, self.map.inner.layers@.last()),
    {
        self.map.top_layer_mutations()
    }

    /// Applies `intent` on an overlay of its own: when the state applies it
    /// (its `outcome` is a layer), the version moves on, the layer is folded
    /// into the state and its entries are returned as mutations; when the
    /// state refuses it, the error is returned and nothing changes.
    pub fn apply(&mut self, intent: &A::Intent) -> (r: Result<Vec<Mutation>, A::Error>)
        requires
            old(self).wf(),
            old(self).version < u64::MAX,
        ensures
            final(self).wf(),
            match root_outcome::<A>(old(self).map.model(), *intent) {
                Ok(t) => {
                    &&& final(self).version == old(self).version + 1
                    &&& final(self).map.model() == combine_down_layers(old(self).map.model().push(t))
                    &&& r matches Ok(ms) && exists|top: StoreLayer| top.wf() && top.model() == t && #[trigger] snapshot_of(ms@, top)
                },
                Err(e) => {
                    &&& r == Err::<Vec<Mutation>, A::Error>(e)
                    &&& final(self).version == old(self).version
                    &&& final(self).map.model() == old(self).map.model()
                },
            },
    {
        let ghost before = self.map.model();
        self.map.push_overlay();
        let mut sm = A::attach(self.map.handle());
        let outcome = sm.apply(&mut self.map, intent);
        let ghost top = self.map.inner.layers@.last();
        assert(before.push(empty_layer()).drop_last() =~= before);
        assert(self.map.model() =~= before.push(top.model()));
        assert(self.map.inner.layers@[self.map.inner.layers@.len() - 1].wf());
        let r = self.finish_apply(outcome);
        proof {
            assert(before.push(top.model()).drop_last() =~= before);
        }
        r
    }

    /// Finishes applying an intent, given what the state's `apply` returned
    /// after writing to the overlay pushed for it (the top layer): on
    /// success the version moves on, the top layer's entries are returned
    /// as mutations and the layer is folded down; on error the top layer is
    /// dropped and the error returned.
    pub fn finish_apply(&mut self, outcome: Result<(), A::Error>) -> (r: Result<Vec<Mutation>, A::Error>)
        requires
            old(self).map.wf(),
            old(self).map.model().len() >= 2,
            old(self).version < u64::MAX,
        ensures
            final(self).wf(),
            match outcome {
                Ok(()) => {
                    &&& final(self).version == old(self).version + 1
                    &&& r matches Ok(ms) && snapshot_of(ms@, old(self).map.inner.layers@.last())
                    &&& final(self).map.model() == combine_down_layers(old(self).map.model())
                },
                Err(e) => {
                    &&& r == Err::<Vec<Mutation>, A::Error>(e)
                    &&& final(self).version == old(self).version
                    &&& final(self).map.model() == old(self).map.model().drop_last()
                },
            },
    {
        match outcome {
            Err(e) => {
                self.map.pop_overlay();
                Err(e)
            },
            Ok(()) => {
                self.version = self.version + 1;
                let mutations = self.map.top_layer_mutations();
                self.map.combine_down();
                Ok(mutations)
            },
        }
    }

    /// The state at the root of the store.
    pub fn state(&self) -> (r: A)
        ensures
            r.prefix() == Seq::<Seq<u8>>::empty(),
    {
        A::attach(self.map.handle())
    }
}

impl<A: Aper> Default for AperServer<A> {
    fn default() -> (r: AperServer<A>)
        ensures
            r.wf(),
            r.map.model() == seq![empty_layer()],
            r.version == 0,
    {
        AperServer::new()
    }
}

} // verus!
