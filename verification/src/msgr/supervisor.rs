//! What the owner of a session does with the effects of its steps.
//!
//! The owner performs one action after the other. Everything that decides which action it is, and
//! what a failed action means for the session, is here.

use super::control::{control_decoding, control_encoding, Control};
use super::frame::{Frame, FrameView, Limits, Tag};
use super::message::{message_decoding, message_encoding, Message, MessageView};
use super::session::{
    effects_view, identity_view, reply_view, so_far, Effect, Input, Machine, SessionError,
};
use super::session_laws::balanced;
use super::session_model::{stepped, EffectView, Event, InputView, MachineView, Trace};
use super::transport::Event as TransportEvent;
use std::collections::HashMap;
use vstd::prelude::*;

verus! {

broadcast use vstd::std_specs::hash::group_hash_axioms;

/// Something for the owner of a session to do.
#[derive(Debug, PartialEq, Eq)]
pub enum Action {
    Connect { generation: u64 },
    Close,
    Write { generation: u64, request_id: Option<u64>, frame: Frame },
    /// Tells a submitter the transaction of its request.
    Admitted { request_id: u64, transaction_id: u64 },
    /// Tells a submitter how its request ended; first, where `unanswered`, that of its admission.
    Finished {
        request_id: u64,
        unanswered: bool,
        result: Result<Option<Message>, SessionError>,
    },
    Deliver(Message),
    Report(Event),
    Terminal(SessionError),
}

pub enum ActionView {
    Connect { generation: u64 },
    Close,
    Write { generation: u64, request_id: Option<u64>, frame: FrameView },
    Admitted { request_id: u64, transaction_id: u64 },
    Finished {
        request_id: u64,
        unanswered: bool,
        result: Result<Option<MessageView>, SessionError>,
    },
    Deliver(MessageView),
    Report(Event),
    Terminal(SessionError),
}

pub open spec fn result_view(result: Result<Option<Message>, SessionError>) -> Result<
    Option<MessageView>,
    SessionError,
> {
    match result {
        Ok(reply) => Ok(reply_view(reply)),
        Err(error) => Err(error),
    }
}

impl View for Action {
    type V = ActionView;

    open spec fn view(&self) -> ActionView {
        match *self {
            Action::Connect { generation } => ActionView::Connect { generation },
            Action::Close => ActionView::Close,
            Action::Write { generation, request_id, frame } => ActionView::Write {
                generation,
                request_id,
                frame: frame@,
            },
            Action::Admitted { request_id, transaction_id } => ActionView::Admitted {
                request_id,
                transaction_id,
            },
            Action::Finished { request_id, unanswered, result } => ActionView::Finished {
                request_id,
                unanswered,
                result: result_view(result),
            },
            Action::Deliver(message) => ActionView::Deliver(message@),
            Action::Report(event) => ActionView::Report(event),
            Action::Terminal(error) => ActionView::Terminal(error),
        }
    }
}

pub open spec fn action_view(action: Option<Action>) -> Option<ActionView> {
    match action {
        Some(action) => Some(action@),
        None => None,
    }
}

/// What came of handing an event to its receiver.
#[derive(Clone, Copy, Debug, PartialEq, Eq, Structural)]
pub enum SendOutcome {
    Sent,
    Full,
    Closed,
}

/// A connection that was made: what it says of the peer.
#[derive(Clone, Copy, Debug)]
pub struct Identification {
    pub authenticated_global_id: Option<u64>,
    pub credential_identity: Option<[u8; 32]>,
}

/// A session, the connection that it uses, and the submitters that wait: of each, whether it has
/// still to learn that its request was admitted.
pub struct Supervisor {
    pub machine: Machine,
    pub active: Option<u64>,
    pub responses: HashMap<u64, bool>,
    pub dropped_events: u64,
    pub unreported_dropped_events: u64,
}

#[verifier::ext_equal]
pub struct SupervisorView {
    pub m: MachineView,
    pub active: Option<u64>,
    pub responses: Map<u64, bool>,
    pub dropped_events: u64,
    pub unreported_dropped_events: u64,
}

impl View for Supervisor {
    type V = SupervisorView;

    open spec fn view(&self) -> SupervisorView {
        SupervisorView {
            m: self.machine@,
            active: self.active,
            responses: self.responses@,
            dropped_events: self.dropped_events,
            unreported_dropped_events: self.unreported_dropped_events,
        }
    }
}

/// What an effect comes to: an action, or a step of the session with more effects.
pub struct Reaction {
    pub s: SupervisorView,
    pub action: Option<ActionView>,
    pub effects: Seq<EffectView>,
}

pub open spec fn calm(s: SupervisorView, action: Option<ActionView>) -> Reaction {
    Reaction { s, action, effects: Seq::empty() }
}

/// A write that could not be made, as the session learns it.
pub open spec fn unwritten(
    s: SupervisorView,
    generation: u64,
    request_id: Option<u64>,
    error: SessionError,
) -> Reaction {
    let after = stepped(
        s.m,
        InputView::WriteComplete { generation, request_id, result: Err(error) },
    );
    Reaction { s: SupervisorView { m: after.m, ..s }, action: None, effects: after.out }
}

/// A frame goes to the connection of its generation, and to no other.
pub open spec fn write(
    s: SupervisorView,
    generation: u64,
    request_id: Option<u64>,
    frame: Result<FrameView, super::frame::FrameError>,
) -> Reaction {
    match frame {
        Ok(frame) => if s.active == Some(generation) {
            calm(s, Some(ActionView::Write { generation, request_id, frame }))
        } else {
            unwritten(s, generation, request_id, SessionError::Disconnected)
        },
        Err(error) => unwritten(s, generation, request_id, SessionError::Frame(error)),
    }
}

/// A request ended. Only a submitter that waits is told.
pub open spec fn finish(
    s: SupervisorView,
    request_id: u64,
    result: Result<Option<MessageView>, SessionError>,
) -> Reaction {
    if s.responses.contains_key(request_id) {
        calm(
            SupervisorView { responses: s.responses.remove(request_id), ..s },
            Some(
                ActionView::Finished {
                    request_id,
                    unanswered: s.responses[request_id],
                    result,
                },
            ),
        )
    } else {
        calm(s, None)
    }
}

/// What the owner does about an effect.
pub open spec fn react(s: SupervisorView, effect: EffectView) -> Reaction {
    match effect {
        EffectView::Connect { generation } => calm(s, Some(ActionView::Connect { generation })),
        EffectView::CloseTransport { generation } => if s.active == Some(generation) {
            calm(SupervisorView { active: None, ..s }, Some(ActionView::Close))
        } else {
            calm(s, None)
        },
        EffectView::SendControl { generation, control } => write(
            s,
            generation,
            None,
            control_encoding(control, s.m.config.limits),
        ),
        EffectView::SendMessage { generation, request_id, message } => write(
            s,
            generation,
            Some(request_id),
            message_encoding(message, s.m.config.limits),
        ),
        EffectView::Admitted { request_id, transaction_id } => if s.responses.contains_key(
            request_id,
        ) && s.responses[request_id] {
            calm(
                SupervisorView { responses: s.responses.insert(request_id, false), ..s },
                Some(ActionView::Admitted { request_id, transaction_id }),
            )
        } else {
            calm(s, None)
        },
        EffectView::Completed { request_id, reply } => finish(s, request_id, Ok(reply)),
        EffectView::Failed { request_id, error } => finish(s, request_id, Err(error)),
        EffectView::Incoming(message) => calm(s, Some(ActionView::Deliver(message))),
        EffectView::Event(event) => calm(s, Some(ActionView::Report(event))),
        EffectView::Terminal(error) => calm(s, Some(ActionView::Terminal(error))),
    }
}

/// The input that a report of a connection is for its session. A payload that cannot be read is a
/// fault of the connection.
pub open spec fn input_of(event: TransportEvent, limits: Limits) -> InputView {
    match event {
        TransportEvent::Frame { generation, frame } => if frame.tag == Tag::Message {
            match message_decoding(frame@, limits) {
                Ok(message) => InputView::Message { generation, message },
                Err(error) => InputView::Fault { generation, error: SessionError::Frame(error) },
            }
        } else {
            match control_decoding(frame@, limits) {
                Ok(control) => InputView::Control { generation, control },
                Err(error) => InputView::Fault { generation, error: SessionError::Frame(error) },
            }
        },
        TransportEvent::WriteComplete { generation, request_id, result } => {
            InputView::WriteComplete { generation, request_id, result }
        },
        TransportEvent::Fault { generation, error } => InputView::Fault { generation, error },
        TransportEvent::RenewalDue { generation } => InputView::RenewalDue { generation },
    }
}

pub fn transport_input(event: TransportEvent, limits: Limits) -> (r: Input)
    ensures
        r@ == input_of(event, limits),
{
    match event {
        TransportEvent::Frame { generation, frame } => {
            if frame.tag == Tag::Message {
                match Message::decode(&frame, limits) {
                    Ok(message) => Input::Message { generation, message },
                    Err(error) => Input::Fault { generation, error: SessionError::Frame(error) },
                }
            } else {
                match Control::decode(&frame, limits) {
                    Ok(control) => Input::Control { generation, control },
                    Err(error) => Input::Fault { generation, error: SessionError::Frame(error) },
                }
            }
        },
        TransportEvent::WriteComplete { generation, request_id, result } => {
            Input::WriteComplete { generation, request_id, result }
        },
        TransportEvent::Fault { generation, error } => Input::Fault { generation, error },
        TransportEvent::RenewalDue { generation } => Input::RenewalDue { generation },
    }
}

pub open spec fn count_drop(s: SupervisorView) -> SupervisorView {
    SupervisorView {
        dropped_events: if s.dropped_events == u64::MAX {
            u64::MAX
        } else {
            (s.dropped_events + 1) as u64
        },
        unreported_dropped_events: if s.unreported_dropped_events == u64::MAX {
            u64::MAX
        } else {
            (s.unreported_dropped_events + 1) as u64
        },
        ..s
    }
}

impl Supervisor {
    pub fn new(machine: Machine) -> (r: Self)
        ensures
            r@ == (SupervisorView {
                m: machine@,
                active: None,
                responses: Map::empty(),
                dropped_events: 0,
                unreported_dropped_events: 0,
            }),
    {
        Supervisor {
            machine,
            active: None,
            responses: HashMap::new(),
            dropped_events: 0,
            unreported_dropped_events: 0,
        }
    }

    /// Takes an input and returns the effects that it asks for.
    pub fn step(&mut self, input: Input) -> (r: Vec<Effect>)
        requires
            balanced(old(self)@.m.book),
        ensures
            balanced(final(self)@.m.book),
            final(self)@ == (SupervisorView {
                m: stepped(old(self)@.m, input@).m,
                ..old(self)@
            }),
            effects_view(r@) == stepped(old(self)@.m, input@).out,
    {
        let effects = self.machine.step(input);
        assert(so_far(self.machine@, effects@).m == self.machine@);
        effects
    }

    fn fail_write(
        &mut self,
        generation: u64,
        request_id: Option<u64>,
        error: SessionError,
    ) -> (r: (Option<Action>, Vec<Effect>))
        requires
            balanced(old(self)@.m.book),
        ensures
            balanced(final(self)@.m.book),
            (Reaction {
                s: final(self)@,
                action: action_view(r.0),
                effects: effects_view(r.1@),
            }) == unwritten(old(self)@, generation, request_id, error),
    {
        let effects = self.step(
            Input::WriteComplete { generation, request_id, result: Err(error) },
        );
        (None, effects)
    }

    fn is_active(&self, generation: u64) -> (r: bool)
        ensures
            r == (self@.active == Some(generation)),
    {
        match self.active {
            Some(active) => active == generation,
            None => false,
        }
    }

    fn finish(&mut self, request_id: u64, result: Result<Option<Message>, SessionError>) -> (r:
        Option<Action>)
        ensures
            final(self).machine == old(self).machine,
            calm(final(self)@, action_view(r)) == finish(
                old(self)@,
                request_id,
                result_view(result),
            ),
    {
        match self.responses.remove(&request_id) {
            Some(unanswered) => Some(Action::Finished { request_id, unanswered, result }),
            None => {
                assert(self.responses@ =~= old(self).responses@);
                None
            },
        }
    }

    /// What to do about an effect, and the effects that follow from it at once.
    pub fn react(&mut self, effect: Effect) -> (r: (Option<Action>, Vec<Effect>))
        requires
            balanced(old(self)@.m.book),
        ensures
            balanced(final(self)@.m.book),
            (Reaction {
                s: final(self)@,
                action: action_view(r.0),
                effects: effects_view(r.1@),
            }) == react(old(self)@, effect@),
    {
        let none: Vec<Effect> = Vec::new();
        assert(effects_view(none@) =~= Seq::empty());
        match effect {
            Effect::Connect { generation } => (Some(Action::Connect { generation }), none),
            Effect::CloseTransport { generation } => {
                if self.is_active(generation) {
                    self.active = None;
                    (Some(Action::Close), none)
                } else {
                    (None, none)
                }
            },
            Effect::SendControl { generation, control } => match control.encode(
                self.machine.limits(),
            ) {
                Ok(frame) => {
                    if self.is_active(generation) {
                        (Some(Action::Write { generation, request_id: None, frame }), none)
                    } else {
                        self.fail_write(generation, None, SessionError::Disconnected)
                    }
                },
                Err(error) => self.fail_write(generation, None, SessionError::Frame(error)),
            },
            Effect::SendMessage { generation, request_id, message } => match message.encode(
                self.machine.limits(),
            ) {
                Ok(frame) => {
                    if self.is_active(generation) {
                        (
                            Some(
                                Action::Write { generation, request_id: Some(request_id), frame },
                            ),
                            none,
                        )
                    } else {
                        self.fail_write(generation, Some(request_id), SessionError::Disconnected)
                    }
                },
                Err(error) => self.fail_write(
                    generation,
                    Some(request_id),
                    SessionError::Frame(error),
                ),
            },
            Effect::Admitted { request_id, transaction_id } => {
                let waiting = match self.responses.get(&request_id) {
                    Some(unanswered) => *unanswered,
                    None => false,
                };
                if waiting {
                    self.responses.insert(request_id, false);
                    (Some(Action::Admitted { request_id, transaction_id }), none)
                } else {
                    (None, none)
                }
            },
            Effect::Completed { request_id, reply } => (
                self.finish(request_id, Ok(reply)),
                none,
            ),
            Effect::Failed { request_id, error } => (self.finish(request_id, Err(error)), none),
            Effect::Incoming(message) => (Some(Action::Deliver(message)), none),
            Effect::Event(event) => (Some(Action::Report(event)), none),
            Effect::Terminal(error) => (Some(Action::Terminal(error)), none),
        }
    }

    /// A submitter waits for the request that is about to come in.
    pub fn expect(&mut self, request_id: u64)
        ensures
            final(self).machine == old(self).machine,
            final(self)@ == (SupervisorView {
                responses: old(self)@.responses.insert(request_id, true),
                ..old(self)@
            }),
    {
        self.responses.insert(request_id, true);
    }
}

/// The start of a session: without a connection, with one that has still to identify itself, or
/// with one that is ready.
pub open spec fn begun(
    m: MachineView,
    initial: Option<Identification>,
    requires_identification: bool,
) -> Trace {
    match initial {
        None => stepped(m, InputView::Start { ready: false }),
        Some(known) => if requires_identification {
            stepped(
                m,
                InputView::InitialConnection {
                    authenticated_global_id: known.authenticated_global_id,
                    credential_identity: identity_view(known.credential_identity),
                },
            )
        } else {
            let ready = stepped(m, InputView::Start { ready: true });
            let named = stepped(
                ready.m,
                InputView::InitialIdentity {
                    generation: ready.m.generation,
                    authenticated_global_id: known.authenticated_global_id,
                    credential_identity: identity_view(known.credential_identity),
                },
            );
            Trace { m: named.m, out: ready.out + named.out }
        },
    }
}

/// What becomes of an attempt to connect.
#[derive(Debug, PartialEq, Eq)]
pub enum Connecting {
    /// The connection is used from now on, under this generation.
    Install { generation: u64, effects: Vec<Effect> },
    /// The connection belongs to an earlier generation and is dropped.
    Discard,
    /// The attempt failed.
    Failed { effects: Vec<Effect> },
}

impl Supervisor {
    /// Starts the session. Where a connection is given, it is used from now on.
    pub fn begin(&mut self, initial: Option<Identification>, requires_identification: bool) -> (r:
        Vec<Effect>)
        requires
            balanced(old(self)@.m.book),
        ensures
            balanced(final(self)@.m.book),
            ({
                let t = begun(old(self)@.m, initial, requires_identification);
                &&& effects_view(r@) == t.out
                &&& final(self)@ == (SupervisorView {
                    m: t.m,
                    active: if initial is Some {
                        Some(t.m.generation)
                    } else {
                        old(self)@.active
                    },
                    ..old(self)@
                })
            }),
    {
        match initial {
            None => self.step(Input::Start { ready: false }),
            Some(known) => {
                let effects = if requires_identification {
                    self.step(
                        Input::InitialConnection {
                            authenticated_global_id: known.authenticated_global_id,
                            credential_identity: known.credential_identity,
                        },
                    )
                } else {
                    let mut effects = self.step(Input::Start { ready: true });
                    let generation: u64 = self.machine.generation;
                    let mut more = self.step(
                        Input::InitialIdentity {
                            generation,
                            authenticated_global_id: known.authenticated_global_id,
                            credential_identity: known.credential_identity,
                        },
                    );
                    let ghost first = effects@;
                    let ghost second = more@;
                    effects.append(&mut more);
                    assert(effects_view(effects@) =~= effects_view(first) + effects_view(second));
                    effects
                };
                self.active = Some(self.machine.generation);
                effects
            },
        }
    }

    /// An attempt to connect ended. One of an earlier generation is dropped, whatever it brings.
    pub fn connected(&mut self, generation: u64, result: Option<Identification>) -> (r: Connecting)
        requires
            balanced(old(self)@.m.book),
        ensures
            balanced(final(self)@.m.book),
            match result {
                Some(known) => if generation == old(self)@.m.generation {
                    let t = stepped(
                        old(self)@.m,
                        InputView::Connected {
                            generation,
                            authenticated_global_id: known.authenticated_global_id,
                            credential_identity: identity_view(known.credential_identity),
                        },
                    );
                    &&& r matches Connecting::Install { generation: installed, effects }
                        && installed == t.m.generation && effects_view(effects@) == t.out
                    &&& final(self)@ == (SupervisorView {
                        m: t.m,
                        active: Some(t.m.generation),
                        ..old(self)@
                    })
                } else {
                    r == Connecting::Discard && final(self)@ == old(self)@
                },
                None => {
                    let t = stepped(old(self)@.m, InputView::ConnectFailed { generation });
                    &&& r matches Connecting::Failed { effects } && effects_view(effects@) == t.out
                    &&& final(self)@ == (SupervisorView { m: t.m, ..old(self)@ })
                },
            },
    {
        match result {
            Some(known) => {
                if generation != self.machine.generation {
                    return Connecting::Discard;
                }
                let effects = self.step(
                    Input::Connected {
                        generation,
                        authenticated_global_id: known.authenticated_global_id,
                        credential_identity: known.credential_identity,
                    },
                );
                let installed: u64 = self.machine.generation;
                self.active = Some(installed);
                Connecting::Install { generation: installed, effects }
            },
            None => Connecting::Failed { effects: self.step(Input::ConnectFailed { generation }) },
        }
    }

    /// The report of dropped events that has to come before the next event.
    pub fn overdue_report(&self) -> (r: Option<Event>)
        ensures
            r == if self@.unreported_dropped_events != 0 {
                Some(Event::EventsDropped { count: self@.dropped_events })
            } else {
                None
            },
    {
        if self.unreported_dropped_events != 0 {
            Some(Event::EventsDropped { count: self.dropped_events })
        } else {
            None
        }
    }

    fn count_drop(&mut self)
        ensures
            final(self).machine == old(self).machine,
            final(self)@ == count_drop(old(self)@),
    {
        if self.dropped_events < u64::MAX {
            self.dropped_events = self.dropped_events + 1;
        }
        if self.unreported_dropped_events < u64::MAX {
            self.unreported_dropped_events = self.unreported_dropped_events + 1;
        }
    }

    /// The report of dropped events was handed over, or not. Returns whether the event that it
    /// comes before is still to be sent: where the report found no room, neither does the event,
    /// and it is counted.
    pub fn report_sent(&mut self, outcome: SendOutcome) -> (r: bool)
        ensures
            final(self).machine == old(self).machine,
            match outcome {
                SendOutcome::Sent => r && final(self)@ == (SupervisorView {
                    unreported_dropped_events: 0,
                    ..old(self)@
                }),
                SendOutcome::Full => !r && final(self)@ == count_drop(old(self)@),
                SendOutcome::Closed => !r && final(self)@ == old(self)@,
            },
    {
        match outcome {
            SendOutcome::Sent => {
                self.unreported_dropped_events = 0;
                true
            },
            SendOutcome::Full => {
                self.count_drop();
                false
            },
            SendOutcome::Closed => false,
        }
    }

    /// An event was handed over, or not. One that finds no room is counted.
    pub fn event_sent(&mut self, outcome: SendOutcome)
        ensures
            final(self).machine == old(self).machine,
            final(self)@ == if outcome == SendOutcome::Full {
                count_drop(old(self)@)
            } else {
                old(self)@
            },
    {
        if outcome == SendOutcome::Full {
            self.count_drop();
        }
    }
}

/// Whoever submitted a request is told once how it ended: from then on nothing about the request
/// reaches anyone.
pub proof fn law_submitter_is_told_once(
    s: SupervisorView,
    request_id: u64,
    result: Result<Option<MessageView>, SessionError>,
    later: EffectView,
)
    requires
        super::session_laws::ends(later, request_id) || (later matches EffectView::Admitted {
            request_id: id,
            ..
        } && id == request_id),
    ensures
        react(finish(s, request_id, result).s, later) == calm(
            finish(s, request_id, result).s,
            None,
        ),
        s.responses.contains_key(request_id) ==> finish(s, request_id, result).action == Some(
            ActionView::Finished { request_id, unanswered: s.responses[request_id], result },
        ),
{
}

/// A frame is written to the connection of its own generation only.
pub proof fn law_frames_stay_in_their_generation(s: SupervisorView, effect: EffectView)
    ensures
        react(s, effect).action matches Some(ActionView::Write { generation, .. }) ==> s.active
            == Some(generation),
{
}

// ---------------------------------------------------------------------------
// Views
// ---------------------------------------------------------------------------

/// What stands for a value of this type is its case, with what it holds.
pub proof fn law_action_is_its_case(x: &Action)
    ensures
        x@ == (match *x {
                Action::Connect { generation } => ActionView::Connect { generation },
                Action::Close => ActionView::Close,
                Action::Write { generation, request_id, frame } => ActionView::Write {
                    generation,
                    request_id,
                    frame: frame@,
                },
                Action::Admitted { request_id, transaction_id } => ActionView::Admitted {
                    request_id,
                    transaction_id,
                },
                Action::Finished { request_id, unanswered, result } => ActionView::Finished {
                    request_id,
                    unanswered,
                    result: result_view(result),
                },
                Action::Deliver(message) => ActionView::Deliver(message@),
                Action::Report(event) => ActionView::Report(event),
                Action::Terminal(error) => ActionView::Terminal(error),
            }),
{
}

/// What stands for a value of this type has its fields.
pub proof fn law_supervisor_has_its_fields(x: Supervisor)
    ensures
        x@.m == x.machine@,
        x@.active == x.active,
        x@.responses == x.responses@,
        x@.dropped_events == x.dropped_events,
        x@.unreported_dropped_events == x.unreported_dropped_events,
{
}

} // verus!
