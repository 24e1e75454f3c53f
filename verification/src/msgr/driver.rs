//! The loop that drives a session: which effect comes next, and when the session is asked what to
//! send.
//!
//! A [`Driver`] hands out one turn after the other. The owner performs the action of a turn and
//! tells what came of it, until there is nothing to do.

use super::message::{Message, MessageView};
use super::session::{
    effects_view, identity_view, Effect, Input, Machine, SessionError, Snapshot,
};
use super::session_laws::balanced;
use super::session_model::{sent_count, stepped, EffectView, InputView};
use super::supervisor::{
    begun, input_of, react, transport_input, Action, ActionView, Connecting, Identification,
    Supervisor, SupervisorView,
};
use super::transport::Event as TransportEvent;
use vstd::prelude::*;

verus! {

/// A supervised session, and the effects that have still to be dealt with.
pub struct Driver {
    pub supervisor: Supervisor,
    pub pending: Vec<Effect>,
}

#[verifier::ext_equal]
pub struct DriverView {
    pub s: SupervisorView,
    pub pending: Seq<EffectView>,
}

impl View for Driver {
    type V = DriverView;

    open spec fn view(&self) -> DriverView {
        DriverView { s: self.supervisor@, pending: effects_view(self.pending@) }
    }
}

/// What is to be done: an action, nothing yet, or nothing until something happens.
#[derive(Debug, PartialEq, Eq)]
pub enum Turn {
    Act(Action),
    Continue,
    Idle,
}

pub enum TurnView {
    Act(ActionView),
    Continue,
    Idle,
}

impl View for Turn {
    type V = TurnView;

    open spec fn view(&self) -> TurnView {
        match self {
            Turn::Act(action) => TurnView::Act(action@),
            Turn::Continue => TurnView::Continue,
            Turn::Idle => TurnView::Idle,
        }
    }
}

/// The next turn: the first effect is dealt with, and those that follow from it go behind the
/// others. Once there are none, the session is asked what to send.
pub open spec fn turned(d: DriverView) -> (DriverView, TurnView) {
    if d.pending.len() > 0 {
        let reaction = react(d.s, d.pending[0]);
        (
            DriverView { s: reaction.s, pending: d.pending.skip(1) + reaction.effects },
            match reaction.action {
                Some(action) => TurnView::Act(action),
                None => TurnView::Continue,
            },
        )
    } else {
        let t = stepped(d.s.m, InputView::Dispatch);
        (
            DriverView { s: SupervisorView { m: t.m, ..d.s }, pending: t.out },
            if t.out.len() == 0 {
                TurnView::Idle
            } else {
                TurnView::Continue
            },
        )
    }
}

/// The session after an input. Its effects go behind those that are there.
pub open spec fn driven(d: DriverView, input: InputView) -> DriverView {
    let t = stepped(d.s.m, input);
    DriverView { s: SupervisorView { m: t.m, ..d.s }, pending: d.pending + t.out }
}

/// The session after a request was submitted by someone who waits.
pub open spec fn submitted(d: DriverView, request_id: u64, message: MessageView, one_way: bool) ->
    DriverView {
    driven(
        DriverView {
            s: SupervisorView { responses: d.s.responses.insert(request_id, true), ..d.s },
            ..d
        },
        InputView::Admit { request_id, message, one_way },
    )
}

/// The session after an attempt to connect ended, and the generation under which the connection is
/// to be used, if it is.
pub open spec fn attempted(d: DriverView, generation: u64, result: Option<Identification>) -> (
    DriverView,
    Option<u64>,
) {
    match result {
        None => (driven(d, InputView::ConnectFailed { generation }), None),
        Some(known) => if generation != d.s.m.generation {
            (d, None)
        } else {
            let after = driven(
                d,
                InputView::Connected {
                    generation,
                    authenticated_global_id: known.authenticated_global_id,
                    credential_identity: identity_view(known.credential_identity),
                },
            );
            (
                DriverView {
                    s: SupervisorView { active: Some(after.s.m.generation), ..after.s },
                    ..after
                },
                Some(after.s.m.generation),
            )
        },
    }
}

impl Driver {
    pub open spec fn wf(self) -> bool {
        balanced(self.supervisor@.m.book)
    }

    fn enqueue(&mut self, effects: Vec<Effect>)
        ensures
            final(self).supervisor == old(self).supervisor,
            effects_view(final(self).pending@) == effects_view(old(self).pending@) + effects_view(
                effects@,
            ),
    {
        let mut effects = effects;
        let ghost before = self.pending@;
        let ghost added = effects@;
        self.pending.append(&mut effects);
        assert(self.pending@ =~= before + added);
        assert(effects_view(self.pending@) =~= effects_view(before) + effects_view(added));
    }

    /// A session that has not started.
    pub fn new(machine: Machine) -> (r: Self)
        ensures
            r@ == (DriverView {
                s: SupervisorView {
                    m: machine@,
                    active: None,
                    responses: Map::empty(),
                    dropped_events: 0,
                    unreported_dropped_events: 0,
                },
                pending: Seq::empty(),
            }),
    {
        let r = Driver { supervisor: Supervisor::new(machine), pending: Vec::new() };
        assert(r@.pending =~= Seq::empty());
        r
    }

    /// Gives the session an input.
    pub fn drive(&mut self, input: Input)
        requires
            old(self).wf(),
        ensures
            final(self).wf(),
            final(self)@ == driven(old(self)@, input@),
    {
        let effects = self.supervisor.step(input);
        self.enqueue(effects);
        assert(self@ =~= driven(old(self)@, input@));
    }

    /// Starts the session. Where a connection is given, it is used from now on.
    pub fn begin(&mut self, initial: Option<Identification>, requires_identification: bool)
        requires
            old(self).wf(),
        ensures
            final(self).wf(),
            ({
                let t = begun(old(self)@.s.m, initial, requires_identification);
                final(self)@ == (DriverView {
                    s: SupervisorView {
                        m: t.m,
                        active: if initial is Some {
                            Some(t.m.generation)
                        } else {
                            old(self)@.s.active
                        },
                        ..old(self)@.s
                    },
                    pending: old(self)@.pending + t.out,
                })
            }),
    {
        let effects = self.supervisor.begin(initial, requires_identification);
        self.enqueue(effects);
    }

    /// Submits a request whose submitter waits.
    pub fn submit(&mut self, request_id: u64, message: Message, one_way: bool)
        requires
            old(self).wf(),
        ensures
            final(self).wf(),
            final(self)@ == submitted(old(self)@, request_id, message@, one_way),
    {
        self.supervisor.expect(request_id);
        assert(self@ =~= (DriverView {
            s: SupervisorView {
                responses: old(self)@.s.responses.insert(request_id, true),
                ..old(self)@.s
            },
            ..old(self)@
        }));
        self.drive(Input::Admit { request_id, message, one_way });
    }

    /// Takes what a connection reports.
    pub fn report(&mut self, event: TransportEvent)
        requires
            old(self).wf(),
        ensures
            final(self).wf(),
            final(self)@ == driven(old(self)@, input_of(event, old(self)@.s.m.config.limits)),
    {
        let limits = self.supervisor.machine.limits();
        self.drive(transport_input(event, limits));
    }

    /// Takes the end of an attempt to connect. Returns the generation under which the connection is
    /// to be used; without one it is dropped.
    pub fn connected(&mut self, generation: u64, result: Option<Identification>) -> (r: Option<u64>)
        requires
            old(self).wf(),
        ensures
            final(self).wf(),
            (final(self)@, r) == attempted(old(self)@, generation, result),
    {
        match self.supervisor.connected(generation, result) {
            Connecting::Install { generation: installed, effects } => {
                self.enqueue(effects);
                assert(self@ =~= attempted(old(self)@, generation, result).0);
                Some(installed)
            },
            Connecting::Discard => {
                assert(self@ =~= old(self)@);
                None
            },
            Connecting::Failed { effects } => {
                self.enqueue(effects);
                assert(self@ =~= attempted(old(self)@, generation, result).0);
                None
            },
        }
    }

    /// A frame could not be handed to its connection.
    pub fn refuse_write(&mut self, generation: u64, request_id: Option<u64>)
        requires
            old(self).wf(),
        ensures
            final(self).wf(),
            final(self)@ == driven(
                old(self)@,
                InputView::WriteComplete {
                    generation,
                    request_id,
                    result: Err(SessionError::Disconnected),
                },
            ),
    {
        self.drive(
            Input::WriteComplete { generation, request_id, result: Err(SessionError::Disconnected) },
        );
    }

    /// A message could not be delivered, because its receiver is full or gone.
    pub fn refuse_delivery(&mut self)
        requires
            old(self).wf(),
        ensures
            final(self).wf(),
            final(self)@ == driven(
                old(self)@,
                InputView::Fault {
                    generation: old(self)@.s.m.generation,
                    error: SessionError::QueueSaturated,
                },
            ),
    {
        let generation: u64 = self.supervisor.machine.generation;
        self.drive(Input::Fault { generation, error: SessionError::QueueSaturated });
    }

    /// The next turn.
    pub fn advance(&mut self) -> (r: Turn)
        requires
            old(self).wf(),
        ensures
            final(self).wf(),
            (final(self)@, r@) == turned(old(self)@),
    {
        if self.pending.len() > 0 {
            let ghost before = self.pending@;
            let effect = self.pending.remove(0);
            assert(effects_view(self.pending@) =~= effects_view(before).skip(1));
            let (action, effects) = self.supervisor.react(effect);
            self.enqueue(effects);
            assert(self@ =~= turned(old(self)@).0);
            match action {
                Some(action) => Turn::Act(action),
                None => Turn::Continue,
            }
        } else {
            let effects = self.supervisor.step(Input::Dispatch);
            let idle: bool = effects.len() == 0;
            self.pending = effects;
            assert(self@ =~= turned(old(self)@).0);
            if idle {
                Turn::Idle
            } else {
                Turn::Continue
            }
        }
    }

    /// What can be seen of the session from outside.
    pub fn snapshot(&self) -> (r: Snapshot)
        ensures
            ({
                let m = self@.s.m;
                &&& r.dropped_events == self@.s.dropped_events
                &&& r.state == m.state
                &&& r.generation == m.generation
                &&& r.next_outbound_sequence == (match m.next_outbound {
                    Some(next) => next,
                    None => 0,
                })
                &&& r.last_inbound_sequence == m.last_inbound
                &&& r.next_transaction_id == (match m.next_transaction_id {
                    Some(next) => next,
                    None => 0,
                })
                &&& r.client_cookie == m.client_cookie
                &&& r.server_cookie == m.server_cookie
                &&& r.server_global_id == m.server_global_id
                &&& r.server_addresses@ == m.server_addresses
                &&& r.server_features == m.server_features
                &&& r.global_sequence == m.global_sequence
                &&& r.connect_sequence == m.connect_sequence
                &&& r.in_flight == sent_count(m.book.pending)
                &&& r.queued == m.book.pending.len() - sent_count(m.book.pending)
                &&& r.replay == m.book.replay.len()
                &&& r.retained_bytes == m.book.retained_bytes
                &&& r.reconnect_attempts == m.reconnect_attempts
                &&& r.handshake_transitions == m.transitions
            }),
    {
        let mut snapshot = self.supervisor.machine.snapshot();
        snapshot.dropped_events = self.supervisor.dropped_events;
        snapshot
    }
}

/// An effect is dealt with before those that came after it, and before the session is asked for
/// more to send.
pub proof fn law_effects_are_dealt_with_in_order(d: DriverView)
    requires
        d.pending.len() > 0,
    ensures
        d.pending.skip(1).is_prefix_of(turned(d).0.pending),
        turned(d).1 == match react(d.s, d.pending[0]).action {
            Some(action) => TurnView::Act(action),
            None => TurnView::Continue,
        },
{
}

/// A driver is idle only when no effect is left and the session has nothing to send.
pub proof fn law_idle_means_nothing_to_do(d: DriverView)
    requires
        turned(d).1 is Idle,
    ensures
        d.pending.len() == 0,
        stepped(d.s.m, InputView::Dispatch).out.len() == 0,
        turned(d).0.pending.len() == 0,
{
}

// ---------------------------------------------------------------------------
// Views
// ---------------------------------------------------------------------------

/// What stands for a value of this type has its fields.
pub proof fn law_driver_has_its_fields(x: Driver)
    ensures
        x@.s == x.supervisor@,
        x@.pending == (effects_view(x.pending@)),
{
}

/// What stands for a value of this type is its case, with what it holds.
pub proof fn law_turn_is_its_case(x: &Turn)
    ensures
        x@ == (match x {
                Turn::Act(action) => TurnView::Act(action@),
                Turn::Continue => TurnView::Continue,
                Turn::Idle => TurnView::Idle,
            }),
{
}

} // verus!
