//! The client of a state machine: it keeps the last state the server
//! confirmed, and on top of it the transitions it sent that the server has
//! not answered yet.

use crate::messages::{
    reply_view, ClientMessageView, ClientTransitionNumber, MessageToClient, MessageToServer, ServerMessageView,
    StateVersionNumber,
};
use crate::state_machine::{share, StateMachine, TransitionView};
use std::collections::VecDeque;
use std::rc::Rc;
use vstd::prelude::*;

verus! {

/// What a client holds: the state the server confirmed (`golden`) at
/// `version`, the state with its own pending transitions applied
/// (`optimistic`), those transitions oldest first, and the number the next
/// one will get.
pub struct ClientView<S: StateMachine> {
    pub golden: S::V,
    pub optimistic: S::V,
    pub transitions: Seq<(u32, TransitionView<S>)>,
    pub version: u32,
    pub next_number: u32,
}

/// `state` after each of `transitions` in turn, skipping those that conflict.
pub open spec fn replay<S: StateMachine>(state: S::V, transitions: Seq<(u32, TransitionView<S>)>) -> S::V
    decreases transitions.len(),
{
    if transitions.len() == 0 {
        state
    } else {
        match S::next(state, transitions[0].1) {
            Ok(s) => replay::<S>(s, transitions.drop_first()),
            Err(_) => replay::<S>(state, transitions.drop_first()),
        }
    }
}

/// The optimistic state is the confirmed one with the pending transitions
/// replayed on it.
pub open spec fn consistent<S: StateMachine>(c: ClientView<S>) -> bool {
    c.optimistic == replay::<S>(c.golden, c.transitions)
}

/// `c` once `next_transition` has handed out a number: only the count moves on.
pub open spec fn numbered<S: StateMachine>(c: ClientView<S>) -> ClientView<S> {
    ClientView { next_number: (c.next_number + 1) as u32, ..c }
}

/// Transition numbers count up by one: of two numbers handed out in turn
/// (the first is `c.next_number`), the second is one more than the first,
/// and neither hand-out changes the states, the version or the pending
/// transitions. (A fresh client's count starts at 0.)
pub proof fn lemma_numbers_count_up<S: StateMachine>(c: ClientView<S>)
    requires
        c.next_number + 1 < u32::MAX,
    ensures
        numbered(c).next_number == c.next_number + 1,
        numbered(numbered(c)).next_number == numbered(c).next_number + 1,
        numbered(numbered(c)) == (ClientView { next_number: (c.next_number + 2) as u32, ..c }),
{
}

/// `c` with its oldest pending transition dropped.
pub open spec fn dropped_first<S: StateMachine>(c: ClientView<S>) -> ClientView<S> {
    ClientView { transitions: c.transitions.drop_first(), ..c }
}

/// The client, and what it sends back, after it receives `message` in view `c`.
pub open spec fn client_step<S: StateMachine>(c: ClientView<S>, message: ClientMessageView<S>) -> (
    ClientView<S>,
    Option<ServerMessageView<S>>,
) {
    match message {
        ClientMessageView::SetState { state, version } => (
            ClientView { golden: state, optimistic: state, transitions: Seq::empty(), version, next_number: 0 },
            None,
        ),
        ClientMessageView::ConfirmTransition { transition_number, version } => {
            if c.transitions.len() == 0 {
                (c, Some(ServerMessageView::RequestState))
            } else if c.transitions[0].0 != transition_number {
                (dropped_first(c), Some(ServerMessageView::RequestState))
            } else {
                match S::next(c.golden, c.transitions[0].1) {
                    Ok(g) => (ClientView { golden: g, version, ..dropped_first(c) }, None),
                    Err(_) => (dropped_first(c), Some(ServerMessageView::RequestState)),
                }
            }
        },
        ClientMessageView::Conflict { transition_number, .. } => {
            if c.transitions.len() == 0 {
                (c, Some(ServerMessageView::RequestState))
            } else if c.transitions[0].0 != transition_number {
                (dropped_first(c), Some(ServerMessageView::RequestState))
            } else {
                (dropped_first(c), None)
            }
        },
        ClientMessageView::PeerTransition { transition, version } => {
            if c.version != version - 1 {
                (c, Some(ServerMessageView::RequestState))
            } else {
                match S::next(c.golden, transition) {
                    Ok(g) => (
                        ClientView { golden: g, optimistic: replay::<S>(g, c.transitions), version, ..c },
                        None,
                    ),
                    Err(_) => (c, Some(ServerMessageView::RequestState)),
                }
            }
        },
    }
}

/// The pending transitions as their numbers and views.
pub open spec fn pending_view<S: StateMachine>(q: Seq<(ClientTransitionNumber, S::Transition)>) -> Seq<(u32, TransitionView<S>)> {
    q.map_values(|e: (ClientTransitionNumber, S::Transition)| (e.0.0, e.1@))
}

/// Replaying from the front: apply the first transition (unless it
/// conflicts), then replay the rest.
proof fn lemma_replay_step<S: StateMachine>(state: S::V, transitions: Seq<(u32, TransitionView<S>)>, i: int)
    requires
        0 <= i < transitions.len(),
    ensures
        replay::<S>(state, transitions.skip(i)) == replay::<S>(
            match S::next(state, transitions[i].1) {
                Ok(s) => s,
                Err(_) => state,
            },
            transitions.skip(i + 1),
        ),
{
    assert(transitions.skip(i).drop_first() =~= transitions.skip(i + 1));
}

/// Replaying one more transition at the end applies it to the replay of
/// the others (unless it conflicts).
pub proof fn lemma_replay_push<S: StateMachine>(
    state: S::V,
    transitions: Seq<(u32, TransitionView<S>)>,
    t: (u32, TransitionView<S>),
)
    ensures
        replay::<S>(state, transitions.push(t)) == match S::next(replay::<S>(state, transitions), t.1) {
            Ok(s) => s,
            Err(_) => replay::<S>(state, transitions),
        },
    decreases transitions.len(),
{
    let e = Seq::<(u32, TransitionView<S>)>::empty();
    if transitions.len() == 0 {
        assert(transitions.push(t).drop_first() =~= e);
        assert(transitions.push(t)[0] == t);
        assert(replay::<S>(state, transitions) == state);
        match S::next(state, t.1) {
            Ok(s) => assert(replay::<S>(s, e) == s),
            Err(_) => assert(replay::<S>(state, e) == state),
        }
    } else {
        assert(transitions.push(t).drop_first() =~= transitions.drop_first().push(t));
        assert(transitions.push(t)[0] == transitions[0]);
        match S::next(state, transitions[0].1) {
            Ok(s) => lemma_replay_push::<S>(s, transitions.drop_first(), t),
            Err(_) => lemma_replay_push::<S>(state, transitions.drop_first(), t),
        }
    }
}

/// A client of a state machine.
pub struct StateClient<S: StateMachine> {
    pub golden_state: Rc<S>,
    pub transitions: VecDeque<(ClientTransitionNumber, S::Transition)>,
    pub optimistic_state: Rc<S>,
    pub version: StateVersionNumber,
    pub next_transition: ClientTransitionNumber,
}

impl<S: StateMachine> StateClient<S> {
    pub open spec fn view(&self) -> ClientView<S> {
        ClientView {
            golden: self.golden_state@,
            optimistic: self.optimistic_state@,
            transitions: pending_view::<S>(self.transitions@),
            version: self.version.0,
            next_number: self.next_transition.0,
        }
    }

    /// A client at `state` and `version`, with nothing pending.
    pub fn new(state: S, version: StateVersionNumber) -> (r: StateClient<S>)
        ensures
            r.view() == (ClientView::<S> {
                golden: state@,
                optimistic: state@,
                transitions: Seq::empty(),
                version: version.0,
                next_number: 0,
            }),
            consistent(r.view()),
    {
        let state = Rc::new(state);
        let r = StateClient {
            golden_state: share(&state),
            optimistic_state: state,
            transitions: VecDeque::new(),
            version,
            next_transition: ClientTransitionNumber(0),
        };
        assert(r.view().transitions =~= Seq::<(u32, TransitionView<S>)>::empty());
        r
    }

    /// Applies `transition` to the optimistic state and queues it; the
    /// message to send the server, or the conflict, which changes nothing.
    pub fn push_transition(&mut self, transition: S::Transition) -> (r: Result<MessageToServer<S>, S::Conflict>)
        requires
            S::next(old(self).view().optimistic, transition@) is Ok ==> old(self).view().next_number < u32::MAX,
        ensures
            match S::next(old(self).view().optimistic, transition@) {
                Ok(s) => {
                    &&& r matches Ok(m) && m@ == ServerMessageView::<S>::DoTransition {
                        transition_number: old(self).view().next_number,
                        transition: transition@,
                    }
                    &&& final(self).view() == (ClientView {
                        optimistic: s,
                        transitions: old(self).view().transitions.push((old(self).view().next_number, transition@)),
                        next_number: (old(self).view().next_number + 1) as u32,
                        ..old(self).view()
                    })
                },
                Err(c) => r == Err::<MessageToServer<S>, S::Conflict>(c) && final(self).view() == old(self).view(),
            },
            consistent(old(self).view()) ==> consistent(final(self).view()),
    {
        let current_state = self.state();
        let next = match current_state.apply(&transition) {
            Ok(s) => s,
            Err(c) => {
                return Err(c);
            },
        };
        self.optimistic_state = Rc::new(next);
        let transition_number = self.next_transition();
        let kept = S::copy_transition(&transition);
        let ghost before = self.transitions@;
        self.transitions.push_back((transition_number, kept));
        proof {
            assert(pending_view::<S>(self.transitions@) =~= pending_view::<S>(before).push((transition_number.0, kept@)));
            lemma_replay_push::<S>(self.view().golden, pending_view::<S>(before), (transition_number.0, kept@));
        }
        Ok(MessageToServer::DoTransition { transition_number, transition })
    }

    /// The number for the next transition; the count moves on.
    pub fn next_transition(&mut self) -> (r: ClientTransitionNumber)
        requires
            old(self).next_transition.0 < u32::MAX,
        ensures
            r == old(self).next_transition,
            final(self).view() == numbered(old(self).view()),
            final(self).transitions@ == old(self).transitions@,
    {
        let result = self.next_transition;
        self.next_transition.0 = self.next_transition.0 + 1;
        result
    }

    /// Handles a message from the server; what to send back, if anything.
    pub fn receive_message_from_server(&mut self, message: MessageToClient<S>) -> (r: Option<MessageToServer<S>>)
        requires
            message is PeerTransition ==> message->PeerTransition_version.0 > 0,
        ensures
            (final(self).view(), reply_view(r)) == client_step(old(self).view(), message@),
            message is SetState ==> consistent(final(self).view()),
            message is PeerTransition && r is None ==> consistent(final(self).view()),
            message is ConfirmTransition && r is None && consistent(old(self).view()) ==> consistent(final(self).view()),
    {
        match message {
            MessageToClient::SetState { state, version } => {
                let state = Rc::new(state);
                self.golden_state = share(&state);
                self.optimistic_state = state;
                self.transitions = VecDeque::new();
                self.version = version;
                self.next_transition = ClientTransitionNumber(0);
                assert(self.view().transitions =~= Seq::<(u32, TransitionView<S>)>::empty());
                None
            },
            MessageToClient::ConfirmTransition { transition_number, version } => {
                let ghost before = self.transitions@;
                if let Some((optimistic_transition_number, transition)) = self.transitions.pop_front() {
                    assert(self.transitions@ =~= before.drop_first());
                    assert(pending_view::<S>(self.transitions@) =~= pending_view::<S>(before).drop_first());
                    if optimistic_transition_number.0 != transition_number.0 {
                        return Some(MessageToServer::RequestState);
                    }
                    if let Ok(state) = self.golden_state.apply(&transition) {
                        self.golden_state = Rc::new(state);
                    } else {
                        return Some(MessageToServer::RequestState);
                    }
                    self.version = version;
                    None
                } else {
                    Some(MessageToServer::RequestState)
                }
            },
            MessageToClient::Conflict { transition_number, .. } => {
                let ghost before = self.transitions@;
                if let Some((optimistic_transition_number, _)) = self.transitions.pop_front() {
                    assert(self.transitions@ =~= before.drop_first());
                    assert(pending_view::<S>(self.transitions@) =~= pending_view::<S>(before).drop_first());
                    if optimistic_transition_number.0 != transition_number.0 {
                        return Some(MessageToServer::RequestState);
                    }
                    None
                } else {
                    Some(MessageToServer::RequestState)
                }
            },
            MessageToClient::PeerTransition { transition, version } => {
                if self.version.0 != version.prior_version().0 {
                    return Some(MessageToServer::RequestState);
                }
                let state = if let Ok(state) = self.golden_state.apply(&transition) {
                    state
                } else {
                    return Some(MessageToServer::RequestState);
                };
                self.golden_state = Rc::new(state);
                self.version = version;
                let ghost g = self.view().golden;
                let ghost ts = self.transitions@;
                let ghost pv = pending_view::<S>(ts);
                let mut state: Rc<S> = share(&self.golden_state);
                let mut i: usize = 0;
                assert(pv.skip(0) =~= pv);
                while i < self.transitions.len()
                    invariant
                        ts == self.transitions@,
                        pv == pending_view::<S>(ts),
                        i <= ts.len(),
                        replay::<S>(state@, pv.skip(i as int)) == replay::<S>(g, pv),
                    decreases ts.len() - i,
                {
                    proof {
                        lemma_replay_step::<S>(state@, pv, i as int);
                    }
                    if let Ok(st) = state.apply(&self.transitions[i].1) {
                        state = Rc::new(st);
                    }
                    i = i + 1;
                }
                assert(pv.skip(i as int) =~= Seq::<(u32, TransitionView<S>)>::empty());
                self.optimistic_state = state;
                None
            },
        }
    }

    /// The optimistic state.
    pub fn state(&self) -> (r: Rc<S>)
        ensures
            r@ == self.view().optimistic,
    {
        share(&self.optimistic_state)
    }
}

impl<S: StateMachine + Default> Default for StateClient<S> {
    fn default() -> (r: StateClient<S>)
        ensures
            exists|s: S| call_ensures(S::default, (), s) && r.view().golden == s@,
            r.view().optimistic == r.view().golden,
            r.view().transitions == Seq::<(u32, TransitionView<S>)>::empty(),
            r.view().version == 0,
            r.view().next_number == 0,
    {
        StateClient::new(S::default(), StateVersionNumber(0))
    }
}

} // verus!
