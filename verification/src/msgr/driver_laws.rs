//! What is done about the effects of a session, and what a session is told of its transport.

use super::control::{control_decoding, control_encoding};
use super::driver::{attempted, driven, submitted, turned, DriverView, TurnView};
use super::frame::{Frame, FrameError, Limits, Tag};
use super::message::{message_decoding, message_encoding, MessageView};
use super::session::identity_view;
use super::session_model::{stepped, EffectView, Event, InputView, SessionError};
use super::supervisor::{
    begun, count_drop, input_of, react, ActionView, Identification, SupervisorView,
};
use super::transport::Event as TransportEvent;
use vstd::prelude::*;

verus! {

/// What a session asks for is done: connections are made and closed, payloads and messages are
/// written as frames on the connection that they are for, submitters are told under which
/// transaction their request goes and how it ended, messages are delivered, and events and the end
/// of the session are reported.
pub proof fn law_effects_are_carried_out(s: SupervisorView, effect: EffectView)
    ensures
        ({
            let r = react(s, effect);
            let frame = match effect {
                EffectView::SendControl { control, .. } => control_encoding(
                    control,
                    s.m.config.limits,
                ),
                EffectView::SendMessage { message, .. } => message_encoding(
                    message,
                    s.m.config.limits,
                ),
                _ => Err(FrameError::Malformed),
            };
            &&& effect matches EffectView::Connect { generation } ==> r.s == s && r.action == Some(
                ActionView::Connect { generation },
            )
            &&& effect matches EffectView::CloseTransport { generation } ==> {
                &&& s.active == Some(generation) ==> r.action == Some(ActionView::Close)
                    && r.s.active is None
                &&& s.active != Some(generation) ==> r.action is None && r.s == s
            }
            &&& effect matches EffectView::SendControl { generation, .. } ==> (frame is Ok
                && s.active == Some(generation) ==> r.s == s && r.action == Some(
                ActionView::Write { generation, request_id: None, frame: frame->Ok_0 },
            ))
            &&& effect matches EffectView::SendMessage { generation, request_id, .. } ==> (
            frame is Ok && s.active == Some(generation) ==> r.s == s && r.action == Some(
                ActionView::Write {
                    generation,
                    request_id: Some(request_id),
                    frame: frame->Ok_0,
                },
            ))
            &&& effect matches EffectView::Admitted { request_id, transaction_id } ==> (
            s.responses.contains_key(request_id) && s.responses[request_id] ==> r.action == Some(
                ActionView::Admitted { request_id, transaction_id },
            ) && r.s.responses.contains_key(request_id) && !r.s.responses[request_id])
            &&& effect matches EffectView::Completed { request_id, reply } ==> (
            s.responses.contains_key(request_id) ==> r.action == Some(
                ActionView::Finished {
                    request_id,
                    unanswered: s.responses[request_id],
                    result: Ok(reply),
                },
            ) && !r.s.responses.contains_key(request_id))
            &&& effect matches EffectView::Failed { request_id, error } ==> (
            s.responses.contains_key(request_id) ==> r.action == Some(
                ActionView::Finished {
                    request_id,
                    unanswered: s.responses[request_id],
                    result: Err(error),
                },
            ) && !r.s.responses.contains_key(request_id))
            &&& effect matches EffectView::Incoming(message) ==> r.s == s && r.action == Some(
                ActionView::Deliver(message),
            )
            &&& effect matches EffectView::Event(event) ==> r.s == s && r.action == Some(
                ActionView::Report(event),
            )
            &&& effect matches EffectView::Terminal(error) ==> r.s == s && r.action == Some(
                ActionView::Terminal(error),
            )
        }),
{
}

/// What cannot be written, for want of its connection or of a frame for it, is told to the session
/// as a write that failed, on that connection and of that request.
pub proof fn law_failed_writes_are_reported(
    s: SupervisorView,
    generation: u64,
    request_id: u64,
    message: MessageView,
)
    ensures
        ({
            let effect = EffectView::SendMessage { generation, request_id, message };
            let frame = message_encoding(message, s.m.config.limits);
            let error = if frame is Err {
                SessionError::Frame(frame->Err_0)
            } else {
                SessionError::Disconnected
            };
            frame is Err || s.active != Some(generation) ==> {
                let told = stepped(
                    s.m,
                    InputView::WriteComplete {
                        generation,
                        request_id: Some(request_id),
                        result: Err(error),
                    },
                );
                &&& react(s, effect).action is None
                &&& react(s, effect).s.m == told.m
                &&& react(s, effect).effects == told.out
            }
        }),
{
}

/// What a transport reports is told to the session as it is, of its own connection: a frame as the
/// message or the payload that it carries, or as a fault if it carries none.
pub proof fn law_transport_events_are_told(event: TransportEvent, limits: Limits)
    ensures
        event matches TransportEvent::Frame { generation, frame } ==> {
            &&& frame.tag == Tag::Message && message_decoding(frame@, limits) is Ok ==> input_of(
                event,
                limits,
            ) == (InputView::Message {
                generation,
                message: message_decoding(frame@, limits)->Ok_0,
            })
            &&& frame.tag == Tag::Message && message_decoding(frame@, limits) is Err ==> input_of(
                event,
                limits,
            ) == (InputView::Fault {
                generation,
                error: SessionError::Frame(message_decoding(frame@, limits)->Err_0),
            })
            &&& frame.tag != Tag::Message && control_decoding(frame@, limits) is Ok ==> input_of(
                event,
                limits,
            ) == (InputView::Control {
                generation,
                control: control_decoding(frame@, limits)->Ok_0,
            })
            &&& frame.tag != Tag::Message && control_decoding(frame@, limits) is Err ==> input_of(
                event,
                limits,
            ) == (InputView::Fault {
                generation,
                error: SessionError::Frame(control_decoding(frame@, limits)->Err_0),
            })
        },
        event matches TransportEvent::WriteComplete { generation, request_id, result } ==> input_of(
            event,
            limits,
        ) == (InputView::WriteComplete { generation, request_id, result }),
        event matches TransportEvent::Fault { generation, error } ==> input_of(event, limits) == (
        InputView::Fault { generation, error }),
        event matches TransportEvent::RenewalDue { generation } ==> input_of(event, limits) == (
        InputView::RenewalDue { generation }),
{
}

/// Events that could not be handed on are counted, those in all and those not yet reported.
pub proof fn law_dropped_events_are_counted(s: SupervisorView)
    ensures
        s.dropped_events < u64::MAX ==> count_drop(s).dropped_events == s.dropped_events + 1,
        s.dropped_events == u64::MAX ==> count_drop(s).dropped_events == u64::MAX,
        s.unreported_dropped_events < u64::MAX ==> count_drop(s).unreported_dropped_events
            == s.unreported_dropped_events + 1,
        count_drop(s).m == s.m && count_drop(s).active == s.active && count_drop(s).responses
            == s.responses,
{
}

/// A session begins without a connection by asking for one; with one that is to be identified, by
/// its handshake; and with any other by being ready on it, under the identity that it has.
pub proof fn law_session_begins_on_its_connection(
    m: super::session_model::MachineView,
    known: Identification,
)
    ensures
        begun(m, None, true) == stepped(m, InputView::Start { ready: false }),
        begun(m, None, false) == stepped(m, InputView::Start { ready: false }),
        begun(m, Some(known), true) == stepped(
            m,
            InputView::InitialConnection {
                authenticated_global_id: known.authenticated_global_id,
                credential_identity: identity_view(known.credential_identity),
            },
        ),
        ({
            let ready = stepped(m, InputView::Start { ready: true });
            let named = stepped(
                ready.m,
                InputView::InitialIdentity {
                    generation: ready.m.generation,
                    authenticated_global_id: known.authenticated_global_id,
                    credential_identity: identity_view(known.credential_identity),
                },
            );
            begun(m, Some(known), false).m == named.m && begun(m, Some(known), false).out
                == ready.out + named.out
        }),
{
}

/// What waits is dealt with first, the oldest first; what comes of it waits last. Only then the next
/// write is asked for, and without one there is nothing to do.
pub proof fn law_oldest_effect_is_next(d: DriverView)
    ensures
        d.pending.len() > 0 ==> {
            let r = react(d.s, d.pending[0]);
            &&& turned(d).0.s == r.s
            &&& turned(d).0.pending.len() == d.pending.len() - 1 + r.effects.len()
            &&& forall|i: int|
                0 <= i < d.pending.len() - 1 ==> #[trigger] turned(d).0.pending[i] == d.pending[i
                    + 1]
            &&& r.action matches Some(action) ==> turned(d).1 == TurnView::Act(action)
            &&& r.action is None ==> turned(d).1 is Continue
        },
        d.pending.len() == 0 ==> {
            let t = stepped(d.s.m, InputView::Dispatch);
            &&& turned(d).0.s.m == t.m
            &&& turned(d).0.pending == t.out
            &&& turned(d).1 is Idle <==> t.out.len() == 0
            &&& !(turned(d).1 is Act)
        },
{
}

/// An input goes to the session, and what it asks for waits behind what waits already. A request that
/// is submitted is expected to be answered, and goes to the session as it is.
pub proof fn law_inputs_reach_the_session(
    d: DriverView,
    input: InputView,
    request_id: u64,
    message: MessageView,
    one_way: bool,
)
    ensures
        driven(d, input).s.m == stepped(d.s.m, input).m,
        driven(d, input).pending == d.pending + stepped(d.s.m, input).out,
        driven(d, input).s.responses == d.s.responses,
        driven(d, input).s.active == d.s.active,
        ({
            let after = submitted(d, request_id, message, one_way);
            let t = stepped(d.s.m, InputView::Admit { request_id, message, one_way });
            &&& after.s.m == t.m
            &&& after.pending == d.pending + t.out
            &&& after.s.responses.contains_key(request_id) && after.s.responses[request_id]
        }),
{
}

/// A connection that was asked for is used under the generation that the session then has. An older
/// one is not used, and an attempt that failed is told to the session.
pub proof fn law_connection_is_used_if_it_is_new(
    d: DriverView,
    generation: u64,
    known: Identification,
)
    ensures
        attempted(d, generation, None).1 is None,
        attempted(d, generation, None).0.s.m == stepped(
            d.s.m,
            InputView::ConnectFailed { generation },
        ).m,
        generation != d.s.m.generation ==> attempted(d, generation, Some(known)) == (
            d,
            None::<u64>,
        ),
        generation == d.s.m.generation ==> {
            let t = stepped(
                d.s.m,
                InputView::Connected {
                    generation,
                    authenticated_global_id: known.authenticated_global_id,
                    credential_identity: identity_view(known.credential_identity),
                },
            );
            let (after, used) = attempted(d, generation, Some(known));
            &&& after.s.m == t.m
            &&& after.pending == d.pending + t.out
            &&& used == Some(t.m.generation)
            &&& after.s.active == Some(t.m.generation)
        },
{
}

} // verus!
