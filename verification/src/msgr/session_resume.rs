//! What a session resumes: the session whose cookies the two sides gave each other, after the last
//! message that was received on it.

use super::control::{ClientIdentView, ControlView, ServerIdentView};
use super::message::MessageView;
use super::session_model::{
    accept_acknowledgment, acknowledge, after_fault, begin_handshake, begin_reconnect, cancel,
    complete_renewal, connected, controlled, counted, credential_seen, deliver, dispatch,
    fail_all, fail_ids, fail_sent, fail_terminal, fault, identified, next, note, prepare_replay,
    queue_control, receive, reconnect_ok, refresh_cookie, renewal_due, require_ready, reset,
    reset_identity, retry, retry_global, sent_ids, server_ident, set_state, start,
    start_transport, stepped, stop, take_in, transition_allowed, trim_replay, wait, written,
    ConfigView, EffectView, Event, InputView, MachineView, RenewalState, SessionError, State,
    Trace,
};
use super::session_runs::{
    any_write, effects_at, law_disconnected_writes_nothing, law_dispatch_writes_one_thing,
    lemma_run_balanced, run,
};
use vstd::prelude::*;

verus! {

// ---------------------------------------------------------------------------
// What a session is known by
// ---------------------------------------------------------------------------

/// How a session introduces itself, but for its cookie and its numbers.
pub open spec fn same_ident(a: ClientIdentView, b: ClientIdentView) -> bool {
    &&& a.addresses == b.addresses
    &&& a.target_address == b.target_address
    &&& a.supported_features == b.supported_features
    &&& a.required_features == b.required_features
    &&& a.flags == b.flags
}

/// A control payload introduces this session.
pub open spec fn introduces(m: MachineView, control: ControlView) -> bool {
    control matches ControlView::ClientIdent(ident) ==> {
        &&& ident.cookie == m.client_cookie
        &&& same_ident(ident, m.config.client_ident)
    }
}

/// A control payload asks to resume this session: it names the cookies of both sides, the numbers of
/// the attempt and the last message that was received.
pub open spec fn resumes(m: MachineView, control: ControlView) -> bool {
    control matches ControlView::SessionReconnect(r) && {
        &&& r.client_cookie == m.client_cookie
        &&& r.server_cookie == m.server_cookie
        &&& r.global_sequence == m.global_sequence
        &&& r.connect_sequence == m.connect_sequence
        &&& r.message_sequence == m.last_inbound
        &&& r.addresses == m.config.client_ident.addresses
    }
}

pub open spec fn none_introduces(controls: Seq<ControlView>) -> bool {
    forall|i: int| 0 <= i < controls.len() ==> !(#[trigger] controls[i] is ClientIdent)
}

/// What is true of every session: what waits to be sent fits its state.
pub open spec fn coherent(m: MachineView) -> bool {
    &&& m.state == State::Disconnected ==> m.controls.len() == 0
    &&& m.state == State::Reconnecting ==> m.server_cookie != 0 && m.controls.len() <= 1 && (
    m.controls.len() == 1 ==> resumes(m, m.controls[0]))
    &&& m.state == State::Connecting ==> m.server_cookie == 0 && forall|i: int|
        0 <= i < m.controls.len() ==> introduces(m, #[trigger] m.controls[i])
    &&& m.connect_pending ==> m.state == State::Disconnected
    &&& m.terminal_error is Some ==> m.state == State::Disconnected || m.state == State::Stopped
}

/// What a session is known by stays, or the session is forgotten.
pub open spec fn remembers(a: MachineView, b: MachineView) -> bool {
    &&& same_ident(a.config.client_ident, b.config.client_ident)
    &&& b.server_cookie == a.server_cookie || b.server_cookie == 0
    &&& b.server_cookie != 0 ==> b.client_cookie == a.client_cookie
}

/// Nothing changes that a session is known by, nor what it has to send.
pub open spec fn unaffected(a: MachineView, b: MachineView) -> bool {
    &&& b.config == a.config
    &&& b.state == a.state
    &&& b.controls == a.controls
    &&& b.client_cookie == a.client_cookie
    &&& b.server_cookie == a.server_cookie
    &&& b.global_sequence == a.global_sequence
    &&& b.connect_sequence == a.connect_sequence
    &&& b.last_inbound == a.last_inbound
    &&& b.connect_pending == a.connect_pending
    &&& b.terminal_error == a.terminal_error
}

/// The connection is given up, if it was not before. The session may be forgotten with it.
pub open spec fn gives_up(a: MachineView, b: MachineView) -> bool {
    ||| unaffected(a, b)
    ||| {
        &&& b.config == a.config
        &&& b.state == State::Disconnected
        &&& b.controls.len() == 0
        &&& b.client_cookie == a.client_cookie
        &&& b.global_sequence == a.global_sequence
        &&& {
            ||| b.server_cookie == a.server_cookie && b.last_inbound == a.last_inbound
            ||| b.server_cookie == 0 && b.last_inbound == 0
        }
    }
}

/// Only a session that is not known yet, or is over, has an introduction left to send.
pub open spec fn discreet(m: MachineView) -> bool {
    none_introduces(m.controls) || m.state == State::Connecting || m.state == State::Stopped
}

/// What a part of a step does that introduces nobody.
pub open spec fn goes_on(a: MachineView, b: MachineView) -> bool {
    &&& remembers(a, b)
    &&& coherent(a) ==> coherent(b)
    &&& discreet(a) ==> discreet(b)
    &&& b.state == State::Connecting ==> !none_introduces(b.controls) || (a.state
        == State::Connecting && b.controls == a.controls && b.client_cookie == a.client_cookie)
}

proof fn lemma_set_state(a: Trace, state: State)
    ensures
        set_state(a, state).m == (MachineView { state, ..a.m }),
{
    reveal(set_state);
}

proof fn lemma_fail_all(a: Trace, error: SessionError)
    ensures
        fail_all(a, error).m == (MachineView { book: fail_all(a, error).m.book, ..a.m }),
{
    reveal(fail_all);
}

proof fn lemma_fail_ids(a: Trace, ids: Seq<u64>)
    ensures
        fail_ids(a, ids).m == (MachineView { book: fail_ids(a, ids).m.book, ..a.m }),
    decreases ids.len(),
{
    if ids.len() > 0 {
        lemma_fail_ids(a, ids.drop_last());
    }
}

proof fn lemma_fail_sent(a: Trace)
    ensures
        fail_sent(a).m == (MachineView { book: fail_sent(a).m.book, ..a.m }),
{
    reveal(fail_sent);
    lemma_fail_ids(a, sent_ids(a.m.book.pending));
}

proof fn lemma_fail_terminal(a: Trace, error: SessionError)
    ensures
        gives_up(a.m, fail_terminal(a, error).m),
        a.m.terminal_error is None ==> fail_terminal(a, error).m.state == State::Disconnected
            && fail_terminal(a, error).m.controls.len() == 0,
        fail_terminal(a, error).m.connect_pending ==> a.m.connect_pending && fail_terminal(
            a,
            error,
        ).m == a.m,
{
    reveal(fail_terminal);
    if a.m.terminal_error is None {
        let marked = note(
            super::session_model::emit(
                Trace { m: MachineView { terminal_error: Some(error), ..a.m }, ..a },
                EffectView::Terminal(error),
            ),
            Event::TransportFault(error),
        );
        let quiet = super::session_model::emit(
            Trace {
                m: MachineView {
                    write_busy: false,
                    controls: Seq::empty(),
                    connect_pending: false,
                    ..marked.m
                },
                ..marked
            },
            EffectView::CloseTransport { generation: a.m.generation },
        );
        lemma_fail_all(quiet, error);
        lemma_set_state(fail_all(quiet, error), State::Disconnected);
    }
}

proof fn lemma_begin_reconnect(a: Trace)
    requires
        a.m.state == State::Disconnected,
        a.m.controls.len() == 0,
    ensures
        gives_up(a.m, begin_reconnect(a).m),
        begin_reconnect(a).m.state == State::Disconnected,
        begin_reconnect(a).m.controls.len() == 0,
{
    reveal(begin_reconnect);
    lemma_fail_terminal(a, SessionError::ReconnectExhausted);
    let trying = Trace {
        m: MachineView {
            reconnect_attempts: (a.m.reconnect_attempts + 1) as usize,
            connect_pending: true,
            ..a.m
        },
        ..a
    };
    lemma_fail_terminal(trying, SessionError::TransitionLimit);
}

proof fn lemma_reset_identity(a: Trace)
    ensures
        ({
            let b = reset_identity(a).m;
            b == (MachineView {
                server_cookie: 0,
                server_flags: 0,
                connect_sequence: 0,
                last_inbound: 0,
                next_outbound: Some(1),
                next_transaction_id: Some(1),
                book: b.book,
                ..a.m
            })
        }),
{
    reveal(reset_identity);
    let cleared = Trace {
        m: MachineView {
            server_cookie: 0,
            server_flags: 0,
            connect_sequence: 0,
            last_inbound: 0,
            next_outbound: Some(1),
            next_transaction_id: Some(1),
            ..a.m
        },
        ..a
    };
    lemma_fail_all(cleared, SessionError::Disconnected);
}

proof fn lemma_after_fault(a: Trace)
    ensures
        ({
            let b = after_fault(a).m;
            &&& b.config == a.m.config
            &&& b.state == a.m.state
            &&& b.controls == a.m.controls
            &&& b.client_cookie == a.m.client_cookie
            &&& b.global_sequence == a.m.global_sequence
            &&& b.connect_pending == a.m.connect_pending
            &&& {
                ||| b.server_cookie == a.m.server_cookie && b.last_inbound == a.m.last_inbound
                ||| b.server_cookie == 0 && b.last_inbound == 0
            }
        }),
{
    reveal(after_fault);
    lemma_fail_sent(a);
    lemma_reset_identity(fail_sent(a));
    lemma_fail_all(a, SessionError::Disconnected);
}

proof fn lemma_fault(a: Trace, error: SessionError)
    ensures
        gives_up(a.m, fault(a, error).m),
        goes_on(a.m, fault(a, error).m),
        a.m.terminal_error is None && a.m.state != State::Stopped && a.m.state
            != State::Disconnected ==> fault(a, error).m.state == State::Disconnected && fault(
            a,
            error,
        ).m.controls.len() == 0,
{
    reveal(fault);
    if !(a.m.terminal_error is Some || a.m.state == State::Stopped || (a.m.state
        == State::Disconnected && a.m.connect_pending)) {
        let closed = super::session_model::emit(
            note(a, Event::TransportFault(error)),
            EffectView::CloseTransport { generation: a.m.generation },
        );
        let quiet = Trace {
            m: MachineView { write_busy: false, controls: Seq::empty(), ..closed.m },
            ..closed
        };
        lemma_after_fault(quiet);
        lemma_set_state(after_fault(quiet), State::Disconnected);
        lemma_begin_reconnect(set_state(after_fault(quiet), State::Disconnected));
    }
}

/// As a session ends for good, its connection is given up.
proof fn lemma_terminal(a: Trace, error: SessionError)
    ensures
        goes_on(a.m, fail_terminal(a, error).m),
{
    lemma_fail_terminal(a, error);
}

proof fn lemma_start_transport(a: Trace, state: State)
    ensures
        start_transport(a, state).1 ==> start_transport(a, state).0.m == (MachineView {
            state,
            generation: (a.m.generation + 1) as u64,
            ..a.m
        }),
        !start_transport(a, state).1 ==> gives_up(a.m, start_transport(a, state).0.m) && goes_on(
            a.m,
            start_transport(a, state).0.m,
        ) && (a.m.terminal_error is None ==> start_transport(a, state).0.m.state
            == State::Disconnected),
{
    reveal(start_transport);
    lemma_fail_terminal(a, SessionError::TransitionLimit);
    lemma_set_state(
        Trace { m: MachineView { generation: (a.m.generation + 1) as u64, ..a.m }, ..a },
        state,
    );
}

proof fn lemma_queue_control(a: Trace, control: ControlView)
    ensures
        queue_control(a, control).m == (MachineView {
            controls: a.m.controls.push(control),
            ..a.m
        }) || (gives_up(a.m, queue_control(a, control).m) && goes_on(
            a.m,
            queue_control(a, control).m,
        ) && a.m.controls.len() >= a.m.config.max_queued_messages),
{
    reveal(queue_control);
    lemma_fault(a, SessionError::QueueSaturated);
}

proof fn lemma_refresh_cookie(a: Trace)
    ensures
        ({
            let (b, ok) = refresh_cookie(a);
            &&& ok ==> a.m.replacement_cookies.len() > 0 && a.m.replacement_cookies[0] != 0 && b.m
                == (MachineView {
                client_cookie: a.m.replacement_cookies[0],
                replacement_cookies: a.m.replacement_cookies.skip(1),
                ..a.m
            })
            &&& !ok ==> gives_up(a.m, b.m) && goes_on(a.m, b.m)
        }),
{
    reveal(refresh_cookie);
    lemma_fail_terminal(a, SessionError::Disconnected);
    if a.m.replacement_cookies.len() > 0 {
        let taken = Trace {
            m: MachineView { replacement_cookies: a.m.replacement_cookies.skip(1), ..a.m },
            ..a
        };
        lemma_fail_terminal(taken, SessionError::Malformed);
    }
}

/// The handshake of a session that both sides know asks to resume it. That of any other introduces
/// the client under a new cookie.
proof fn lemma_begin_handshake(a: Trace, generation: u64)
    requires
        a.m.controls.len() == 0,
        a.m.state == State::Disconnected,
        !a.m.connect_pending,
        a.m.terminal_error is None,
    ensures
        goes_on(a.m, begin_handshake(a, generation).m),
{
    reveal(begin_handshake);
    if a.m.server_cookie != 0 {
        lemma_fail_terminal(a, SessionError::TransitionLimit);
        if a.m.connect_sequence < u64::MAX {
            let more = Trace {
                m: MachineView { connect_sequence: (a.m.connect_sequence + 1) as u64, ..a.m },
                ..a
            };
            let (up, ok) = start_transport(more, State::Reconnecting);
            lemma_start_transport(more, State::Reconnecting);
            if ok {
                let bare = Trace { m: MachineView { controls: Seq::empty(), ..up.m }, ..up };
                lemma_queue_control(bare, super::session_model::reconnect_request(up.m));
            }
        }
    } else {
        let (fresh, refreshed) = refresh_cookie(a);
        lemma_refresh_cookie(a);
        if refreshed {
            let none = Trace { m: MachineView { connect_sequence: 0, ..fresh.m }, ..fresh };
            let (up, ok) = start_transport(none, State::Connecting);
            lemma_start_transport(none, State::Connecting);
            if ok {
                lemma_queue_control(up, super::session_model::client_ident(up.m));
                reveal(queue_control);
                lemma_fault(up, SessionError::QueueSaturated);
                let pushed = up.m.controls.push(super::session_model::client_ident(up.m));
                assert(pushed[up.m.controls.len() as int] is ClientIdent);
            }
        }
    }
}

proof fn lemma_identified(a: Trace, global_id: Option<u64>)
    requires
        a.m.controls.len() == 0,
        a.m.state == State::Disconnected,
        !a.m.connect_pending,
    ensures
        ({
            let b = identified(a, global_id).0.m;
            &&& remembers(a.m, b)
            &&& b.controls.len() == 0
            &&& b.state == State::Disconnected
            &&& !b.connect_pending
            &&& identified(a, global_id).1 ==> b.terminal_error == a.m.terminal_error
        }),
{
    reveal(identified);
    if let Some(id) = global_id {
        let known = Trace { m: MachineView { authenticated_global_id: id, ..a.m }, ..a };
        lemma_fail_terminal(known, SessionError::Malformed);
        if id <= i64::MAX {
            let named = Trace {
                m: MachineView {
                    config: ConfigView {
                        client_ident: ClientIdentView {
                            global_id: id as i64,
                            ..known.m.config.client_ident
                        },
                        ..known.m.config
                    },
                    ..known.m
                },
                ..known
            };
            lemma_reset_identity(named);
        }
    }
}

proof fn lemma_connected(
    a: Trace,
    generation: u64,
    global_id: Option<u64>,
    identity: Option<Seq<u8>>,
)
    requires
        coherent(a.m),
    ensures
        goes_on(a.m, connected(a, generation, global_id, identity).m),
{
    reveal(connected);
    if generation == a.m.generation && a.m.connect_pending {
        let met = Trace {
            m: MachineView {
                connect_pending: false,
                terminal_error: None,
                transitions: 0,
                ..a.m
            },
            ..a
        };
        lemma_fail_terminal(met, SessionError::TransitionLimit);
        if !(met.m.connected_once && met.m.global_sequence == u64::MAX) {
            let again = Trace {
                m: MachineView {
                    global_sequence: if met.m.connected_once {
                        (met.m.global_sequence + 1) as u64
                    } else {
                        met.m.global_sequence
                    },
                    connected_once: true,
                    ..met.m
                },
                ..met
            };
            let (known, ok) = identified(again, global_id);
            lemma_identified(again, global_id);
            if ok {
                let seen = Trace { m: credential_seen(known.m, identity), ..known };
                lemma_begin_handshake(seen, generation);
            }
        }
    }
}

proof fn lemma_transition_allowed(a: Trace, expected: State)
    ensures
        ({
            let (b, ok) = transition_allowed(a, expected);
            &&& ok ==> a.m.state == expected && unaffected(a.m, b.m)
            &&& !ok ==> goes_on(a.m, b.m)
        }),
{
    reveal(transition_allowed);
    lemma_fault(a, SessionError::Malformed);
    lemma_fault(counted(a), SessionError::TransitionLimit);
}

proof fn lemma_accept(a: Trace, sequence: u64)
    ensures
        accept_acknowledgment(a, sequence).1 ==> accept_acknowledgment(a, sequence).0 == a,
        goes_on(a.m, accept_acknowledgment(a, sequence).0.m),
{
    reveal(accept_acknowledgment);
    lemma_fault(a, SessionError::Malformed);
}

proof fn lemma_complete_renewal(a: Trace)
    ensures
        complete_renewal(a).1 ==> unaffected(a.m, complete_renewal(a).0.m),
        !complete_renewal(a).1 ==> goes_on(a.m, complete_renewal(a).0.m) && gives_up(
            a.m,
            complete_renewal(a).0.m,
        ),
{
    reveal(complete_renewal);
    lemma_fault(a, SessionError::Renewal);
}

proof fn lemma_requeue(a: Trace)
    requires
        a.m.state == State::Reconnecting,
        a.m.server_cookie != 0,
        !a.m.connect_pending,
        a.m.terminal_error is None,
    ensures
        ({
            let b = super::session_model::queue_reconnect(a).m;
            &&& remembers(a.m, b)
            &&& coherent(b)
            &&& none_introduces(b.controls)
            &&& b.state != State::Connecting
        }),
{
    let bare = Trace { m: MachineView { controls: Seq::empty(), ..a.m }, ..a };
    lemma_queue_control(bare, super::session_model::reconnect_request(a.m));
}

proof fn lemma_retries(a: Trace, sequence: u64)
    requires
        coherent(a.m),
    ensures
        goes_on(a.m, retry(a, sequence).m),
        goes_on(a.m, retry_global(a, sequence).m),
{
    reveal(retry);
    reveal(retry_global);
    let (allowed, ok) = transition_allowed(a, State::Reconnecting);
    lemma_transition_allowed(a, State::Reconnecting);
    if ok {
        lemma_fail_terminal(allowed, SessionError::TransitionLimit);
        if sequence != u64::MAX {
            let next = (sequence + 1) as u64;
            lemma_requeue(
                note(
                    Trace { m: MachineView { connect_sequence: next, ..allowed.m }, ..allowed },
                    Event::Retry { sequence: next },
                ),
            );
        }
        let highest = super::session_model::max_u64(allowed.m.global_sequence, sequence);
        if highest != u64::MAX {
            let next = (highest + 1) as u64;
            lemma_requeue(
                note(
                    Trace { m: MachineView { global_sequence: next, ..allowed.m }, ..allowed },
                    Event::RetryGlobal { sequence: next },
                ),
            );
        }
    }
}

proof fn lemma_introduce(a: Trace)
    requires
        a.m.state == State::Connecting,
        coherent(a.m),
    ensures
        coherent(super::session_model::queue_client_ident(a).m),
        remembers(a.m, super::session_model::queue_client_ident(a).m),
        super::session_model::queue_client_ident(a).m.state == State::Connecting || none_introduces(
            super::session_model::queue_client_ident(a).m.controls,
        ),
        super::session_model::queue_client_ident(a).m.state == State::Connecting
            ==> !none_introduces(super::session_model::queue_client_ident(a).m.controls),
{
    lemma_queue_control(a, super::session_model::client_ident(a.m));
    reveal(queue_control);
    lemma_fault(a, SessionError::QueueSaturated);
    let pushed = a.m.controls.push(super::session_model::client_ident(a.m));
    assert(pushed[a.m.controls.len() as int] is ClientIdent);
}

proof fn lemma_reset(a: Trace, full: bool)
    requires
        a.m.state == State::Reconnecting,
        coherent(a.m),
    ensures
        goes_on(a.m, reset(a, full).m),
{
    reveal(reset);
    let told = note(a, Event::SessionReset { full });
    let cleared = Trace {
        m: MachineView {
            server_cookie: 0,
            server_flags: 0,
            connect_sequence: 0,
            last_inbound: 0,
            ..told.m
        },
        ..told
    };
    if full {
        let (fresh, ok) = refresh_cookie(cleared);
        lemma_refresh_cookie(cleared);
        reveal(refresh_cookie);
        if ok {
            let renumbered = Trace {
                m: MachineView { next_outbound: Some(1), next_transaction_id: Some(1), ..fresh.m },
                ..fresh
            };
            lemma_fail_all(renumbered, SessionError::Disconnected);
            lemma_set_state(fail_all(renumbered, SessionError::Disconnected), State::Connecting);
            lemma_introduce(
                set_state(fail_all(renumbered, SessionError::Disconnected), State::Connecting),
            );
        } else {
            lemma_fail_terminal(cleared, SessionError::Disconnected);
            let taken = Trace {
                m: MachineView {
                    replacement_cookies: cleared.m.replacement_cookies.skip(1),
                    ..cleared.m
                },
                ..cleared
            };
            lemma_fail_terminal(taken, SessionError::Malformed);
        }
    } else {
        lemma_set_state(prepare_replay(cleared), State::Connecting);
        lemma_introduce(set_state(prepare_replay(cleared), State::Connecting));
    }
}

proof fn lemma_reconnect_ok(a: Trace, message_sequence: u64)
    ensures
        goes_on(a.m, reconnect_ok(a, message_sequence).m),
{
    reveal(reconnect_ok);
    let (allowed, ok) = transition_allowed(a, State::Reconnecting);
    lemma_transition_allowed(a, State::Reconnecting);
    if ok {
        let (checked, acceptable) = accept_acknowledgment(allowed, message_sequence);
        lemma_accept(allowed, message_sequence);
        if acceptable {
            let trimmed = prepare_replay(trim_replay(checked, message_sequence));
            let (renewed, done) = complete_renewal(trimmed);
            lemma_complete_renewal(trimmed);
            if done {
                lemma_set_state(
                    Trace { m: MachineView { reconnect_attempts: 0, ..renewed.m }, ..renewed },
                    State::Ready,
                );
            }
        }
    }
}

proof fn lemma_receive(a: Trace, message: MessageView)
    ensures
        goes_on(a.m, receive(a, message).m),
{
    reveal(receive);
    reveal(deliver);
    let sequence = message.header.sequence;
    lemma_fault(a, SessionError::Malformed);
    lemma_accept(a, message.header.ack_sequence);
    if a.m.state == State::Ready && accept_acknowledgment(a, message.header.ack_sequence).1
        && sequence > a.m.last_inbound {
        let expected = (a.m.last_inbound + 1) as u64;
        let told = if sequence != expected {
            note(a, Event::SequenceGap { sequence, expected })
        } else {
            a
        };
        let seen = trim_replay(
            Trace { m: MachineView { last_inbound: sequence, ..told.m }, ..told },
            message.header.ack_sequence,
        );
        let queued = queue_control(seen, ControlView::Ack(sequence));
        lemma_queue_control(seen, ControlView::Ack(sequence));
        lemma_fail_terminal(queued, SessionError::QueueSaturated);
    }
}

proof fn lemma_wait(a: Trace)
    requires
        coherent(a.m),
    ensures
        goes_on(a.m, wait(a).m),
{
    reveal(wait);
    lemma_fault(a, SessionError::Malformed);
    if a.m.state == State::Connecting || a.m.state == State::Reconnecting {
        let waiting = set_state(counted(a), State::Wait);
        lemma_set_state(counted(a), State::Wait);
        lemma_fault(note(waiting, Event::Wait), SessionError::Disconnected);
    }
}

/// What an answer to an introduction does: it may name the session of the server.
proof fn lemma_server_ident(a: Trace, ident: ServerIdentView)
    requires
        coherent(a.m),
    ensures
        ({
            let b = server_ident(a, ident).m;
            &&& same_ident(a.m.config.client_ident, b.config.client_ident)
            &&& coherent(b)
            &&& b.client_cookie == a.m.client_cookie
            &&& b.server_cookie == a.m.server_cookie || b.server_cookie == 0 || (a.m.state
                == State::Connecting && b.server_cookie == ident.cookie)
            &&& a.m.controls.len() == 0 ==> none_introduces(b.controls)
            &&& a.m.state != State::Connecting ==> goes_on(a.m, b)
            &&& a.m.state == State::Connecting && b.state == State::Connecting ==> unaffected(
                a.m,
                b,
            )
        }),
{
    reveal(server_ident);
    let known = counted(a);
    lemma_fault(a, SessionError::Malformed);
    lemma_fault(known, SessionError::TransitionLimit);
    lemma_fault(known, SessionError::Malformed);
    lemma_fail_terminal(known, SessionError::UnsupportedFeature);
    let named = Trace {
        m: MachineView {
            server_cookie: ident.cookie,
            server_global_id: ident.global_id,
            server_addresses: ident.addresses,
            server_features: ident.supported_features,
            server_flags: ident.flags,
            ..known.m
        },
        ..known
    };
    let failed = fail_sent(named);
    lemma_fail_sent(named);
    let (renewed, ok) = complete_renewal(failed);
    reveal(complete_renewal);
    lemma_complete_renewal(failed);
    lemma_fault(failed, SessionError::Renewal);
    lemma_set_state(
        Trace { m: MachineView { reconnect_attempts: 0, ..renewed.m }, ..renewed },
        State::Ready,
    );
}

proof fn lemma_controlled(a: Trace, control: ControlView)
    requires
        coherent(a.m),
        !(control is ServerIdent),
    ensures
        goes_on(a.m, controlled(a, control).m),
{
    reveal(controlled);
    reveal(require_ready);
    reveal(acknowledge);
    lemma_fault(a, SessionError::Malformed);
    lemma_fault(a, SessionError::UnsupportedPayload);
    lemma_terminal(a, SessionError::UnsupportedPayload);
    match control {
        ControlView::Ack(sequence) => {
            lemma_accept(a, sequence);
        },
        ControlView::Keepalive2(time) => {
            lemma_queue_control(a, ControlView::Keepalive2Ack(time));
        },
        ControlView::SessionReset(v) => {
            let (allowed, ok) = transition_allowed(a, State::Reconnecting);
            lemma_transition_allowed(a, State::Reconnecting);
            if ok {
                lemma_reset(allowed, v.full);
            }
        },
        ControlView::SessionRetry(v) => {
            lemma_retries(a, v.connect_sequence);
        },
        ControlView::SessionRetryGlobal(v) => {
            lemma_retries(a, v.global_sequence);
        },
        ControlView::Wait => {
            lemma_wait(a);
        },
        ControlView::SessionReconnectOk(v) => {
            lemma_reconnect_ok(a, v.message_sequence);
        },
        _ => {},
    }
}

proof fn lemma_start(a: Trace, ready: bool)
    requires
        coherent(a.m),
    ensures
        goes_on(a.m, start(a, ready).m),
{
    reveal(start);
    if a.m.state == State::Disconnected && !a.m.connect_pending && a.m.terminal_error is None {
        if ready {
            lemma_start_transport(
                Trace { m: MachineView { connected_once: true, ..a.m }, ..a },
                State::Ready,
            );
        } else {
            lemma_begin_reconnect(a);
        }
    }
}

proof fn lemma_take_in(a: Trace, request_id: u64, message: MessageView, one_way: bool)
    ensures
        goes_on(a.m, take_in(a, request_id, message, one_way).m),
{
    reveal(take_in);
    let id = super::session_model::next_id(a.m);
    let numbered = Trace {
        m: MachineView { next_transaction_id: super::session_model::after_id(id), ..a.m },
        ..a
    };
    lemma_fail_terminal(numbered, SessionError::TransitionLimit);
}

/// Whether a control payload is sent next.
pub open spec fn sends_control(m: MachineView) -> bool {
    !m.write_busy && m.controls.len() > 0 && (m.state == State::Connecting || m.state
        == State::Reconnecting || m.state == State::Ready)
}

/// A control payload is sent as it stood first among those that waited.
proof fn lemma_dispatch(a: Trace)
    requires
        coherent(a.m),
    ensures
        coherent(dispatch(a).m),
        remembers(a.m, dispatch(a).m),
        sends_control(a.m) ==> dispatch(a).m == (MachineView {
            controls: a.m.controls.skip(1),
            write_busy: true,
            ..a.m
        }) && dispatch(a).out == a.out.push(
            EffectView::SendControl { generation: a.m.generation, control: a.m.controls[0] },
        ),
        !sends_control(a.m) ==> goes_on(a.m, dispatch(a).m),
        !sends_control(a.m) && a.m.controls.len() > 0 ==> dispatch(a) == a,
{
    reveal(dispatch);
    let draining = Trace { m: MachineView { renewal: RenewalState::Reconnecting, ..a.m }, ..a };
    lemma_fault(draining, SessionError::Renewal);
    lemma_fail_terminal(a, SessionError::TransitionLimit);
    if a.m.controls.len() > 0 {
        let rest = a.m.controls.skip(1);
        assert(forall|i: int| 0 <= i < rest.len() ==> #[trigger] rest[i] == a.m.controls[i + 1]);
    }
}

proof fn lemma_written(
    a: Trace,
    generation: u64,
    request_id: Option<u64>,
    result: Result<(), SessionError>,
)
    ensures
        goes_on(a.m, written(a, generation, request_id, result).m),
{
    reveal(written);
    let free = Trace { m: MachineView { write_busy: false, ..a.m }, ..a };
    if let Err(error) = result {
        lemma_fault(free, error);
    }
}

/// What an input does that is neither a dispatch nor an answer to an introduction.
proof fn lemma_next(a: Trace, input: InputView)
    requires
        coherent(a.m),
        !(input is Dispatch),
        !(input matches InputView::Control { control: ControlView::ServerIdent(_), .. }),
    ensures
        goes_on(a.m, next(a, input).m),
{
    match input {
        InputView::Start { ready } => {
            lemma_start(a, ready);
        },
        InputView::InitialConnection { authenticated_global_id, credential_identity } => {
            let ready = Trace { m: MachineView { connect_pending: true, ..a.m }, ..a };
            if a.m.state == State::Disconnected {
                lemma_connected(
                    ready,
                    a.m.generation,
                    authenticated_global_id,
                    credential_identity,
                );
            }
        },
        InputView::Admit { request_id, message, one_way } => {
            lemma_take_in(a, request_id, message, one_way);
        },
        InputView::Cancel { request_id } => {
            reveal(cancel);
        },
        InputView::WriteComplete { generation, request_id, result } => {
            lemma_written(a, generation, request_id, result);
        },
        InputView::Connected { generation, authenticated_global_id, credential_identity } => {
            lemma_connected(a, generation, authenticated_global_id, credential_identity);
        },
        InputView::ConnectFailed { generation } => {
            if generation == a.m.generation && a.m.connect_pending {
                lemma_begin_reconnect(
                    note(
                        Trace { m: MachineView { connect_pending: false, ..a.m }, ..a },
                        Event::TransportFault(SessionError::Disconnected),
                    ),
                );
            }
        },
        InputView::Control { control, .. } => {
            lemma_controlled(a, control);
        },
        InputView::Message { message, .. } => {
            lemma_receive(a, message);
        },
        InputView::Fault { error, .. } => {
            lemma_fault(a, error);
        },
        InputView::RenewalDue { .. } => {
            reveal(renewal_due);
        },
        InputView::Stop => {
            reveal(stop);
            lemma_set_state(a, State::Stopped);
            lemma_fail_all(set_state(a, State::Stopped), SessionError::Closed);
        },
        _ => {},
    }
}

// ---------------------------------------------------------------------------
// What the two sides told each other
// ---------------------------------------------------------------------------

/// What the two sides of a session told each other: the cookie under which the client introduced
/// itself last, the cookie with which the server answered last, and whether the server answered only
/// once the client had introduced itself.
pub struct Acquaintance {
    pub client: Option<u64>,
    pub server: Option<u64>,
    pub in_turn: bool,
}

/// The cookie under which the client introduces itself in one of the effects.
pub open spec fn introduction(out: Seq<EffectView>) -> Option<u64> {
    if out.len() == 1 {
        match out[0] {
            EffectView::SendControl { control: ControlView::ClientIdent(ident), .. } => Some(
                ident.cookie,
            ),
            _ => None,
        }
    } else {
        None
    }
}

/// The cookie with which the server answers an introduction.
pub open spec fn answer(m: MachineView, input: InputView) -> Option<u64> {
    match input {
        InputView::Control { generation, control: ControlView::ServerIdent(ident) } => {
            if generation == m.generation && m.state == State::Connecting {
                Some(ident.cookie)
            } else {
                None
            }
        },
        _ => None,
    }
}

/// What the two sides told each other in the course of these inputs.
pub open spec fn acquainted(config: ConfigView, inputs: Seq<InputView>) -> Acquaintance
    decreases inputs.len(),
{
    if inputs.len() == 0 {
        Acquaintance { client: None, server: None, in_turn: true }
    } else {
        let before = acquainted(config, inputs.drop_last());
        let m = run(config, inputs.drop_last()).m;
        let out = stepped(m, inputs.last()).out;
        Acquaintance {
            client: if introduction(out) is Some {
                introduction(out)
            } else {
                before.client
            },
            server: if answer(m, inputs.last()) is Some {
                answer(m, inputs.last())
            } else {
                before.server
            },
            in_turn: before.in_turn && (answer(m, inputs.last()) is Some ==> m.controls.len() == 0),
        }
    }
}

/// A session is known by what the two sides told each other, or by what it was made with.
pub open spec fn known_by(config: ConfigView, m: MachineView, told: Acquaintance) -> bool {
    &&& m.server_cookie != 0 ==> {
        ||| told.server is None && m.server_cookie == config.server_cookie && m.client_cookie
            == config.client_cookie
        ||| told.server == Some(m.server_cookie) && told.client == Some(m.client_cookie)
    }
    &&& m.state == State::Connecting && none_introduces(m.controls) ==> told.client == Some(
        m.client_cookie,
    )
    &&& discreet(m)
    &&& same_ident(m.config.client_ident, config.client_ident)
}

proof fn lemma_known(config: ConfigView, inputs: Seq<InputView>)
    ensures
        coherent(run(config, inputs).m),
        acquainted(config, inputs).in_turn ==> known_by(
            config,
            run(config, inputs).m,
            acquainted(config, inputs),
        ),
    decreases inputs.len(),
{
    if inputs.len() > 0 {
        let before = inputs.drop_last();
        let input = inputs.last();
        let m = run(config, before).m;
        let a = Trace { m, out: Seq::<EffectView>::empty() };
        let s = stepped(m, input);
        let told = acquainted(config, before);
        lemma_known(config, before);
        lemma_run_balanced(config, before);
        law_disconnected_writes_nothing(config, before);
        law_dispatch_writes_one_thing(m, input);
        if introduction(s.out) is Some {
            assert(super::session_laws::writes(s.out[0]));
            assert(any_write(s.out));
        }
        if input is Dispatch {
            lemma_dispatch(a);
            if sends_control(m) {
                assert(s.out[0] == (EffectView::SendControl {
                    generation: m.generation,
                    control: m.controls[0],
                }));
                let rest = m.controls.skip(1);
                assert(forall|i: int| 0 <= i < rest.len() ==> #[trigger] rest[i] == m.controls[i
                    + 1]);
                if none_introduces(m.controls) {
                    assert(none_introduces(rest));
                    assert(!(m.controls[0] is ClientIdent));
                }
                if told.in_turn && none_introduces(rest) && !none_introduces(m.controls) {
                    let i = choose|i: int|
                        0 <= i < m.controls.len() && #[trigger] m.controls[i] is ClientIdent;
                    if i > 0 {
                        assert(rest[i - 1] is ClientIdent);
                    }
                    assert(m.controls[0] is ClientIdent);
                    assert(introduces(m, m.controls[0]));
                }
            }
        } else if let InputView::Control { generation, control } = input {
            if control is ServerIdent && generation == m.generation {
                reveal(controlled);
                lemma_server_ident(a, control->ServerIdent_0);
            } else if !(control is ServerIdent) {
                lemma_next(a, input);
            }
        } else {
            lemma_next(a, input);
        }
    }
}

/// A session that both sides know is resumed by what they told each other: the request to resume it
/// names the cookie under which the client introduced itself last, the cookie with which the server
/// answered, and the last message that was received. A session that was made with cookies is resumed
/// by those, until it is introduced anew.
pub proof fn law_reconnect_names_the_session(config: ConfigView, inputs: Seq<InputView>, k: int)
    requires
        0 <= k < inputs.len(),
        acquainted(config, inputs.take(k)).in_turn,
        run(config, inputs.take(k)).m.state == State::Reconnecting,
    ensures
        forall|j: int|
            0 <= j < effects_at(config, inputs, k).len() ==> ((
            #[trigger] effects_at(config, inputs, k)[j]) matches EffectView::SendControl {
                control,
                ..
            } ==> {
                let m = run(config, inputs.take(k)).m;
                let told = acquainted(config, inputs.take(k));
                &&& control is SessionReconnect
                &&& told.server is Some ==> control->SessionReconnect_0.server_cookie
                    == told.server->0 && told.client is Some
                    && control->SessionReconnect_0.client_cookie == told.client->0
                &&& told.server is None ==> control->SessionReconnect_0.server_cookie
                    == config.server_cookie && control->SessionReconnect_0.client_cookie
                    == config.client_cookie
                &&& control->SessionReconnect_0.message_sequence == m.last_inbound
                &&& control->SessionReconnect_0.global_sequence == m.global_sequence
                &&& control->SessionReconnect_0.connect_sequence == m.connect_sequence
                &&& control->SessionReconnect_0.addresses == config.client_ident.addresses
            }),
{
    let before = inputs.take(k);
    let m = run(config, before).m;
    let s = stepped(m, inputs[k]);
    lemma_known(config, before);
    lemma_run_balanced(config, before);
    law_disconnected_writes_nothing(config, before);
    law_dispatch_writes_one_thing(m, inputs[k]);
    assert forall|j: int| 0 <= j < s.out.len() && #[trigger] s.out[j] is SendControl implies s.out[j]
        == s.out[0] && m.controls.len() == 1 && s.out[0]->SendControl_control == m.controls[0] by {
        assert(super::session_laws::writes(s.out[j]));
    }
}

/// A client that introduces itself does so under its cookie, and otherwise as it was configured.
pub proof fn law_introduction_names_the_client(config: ConfigView, inputs: Seq<InputView>, k: int)
    requires
        0 <= k < inputs.len(),
        run(config, inputs.take(k)).m.state == State::Connecting,
    ensures
        forall|j: int|
            0 <= j < effects_at(config, inputs, k).len() ==> ((
            #[trigger] effects_at(config, inputs, k)[j]) matches EffectView::SendControl {
                control: ControlView::ClientIdent(ident),
                ..
            } ==> ident.cookie == run(config, inputs.take(k)).m.client_cookie && same_ident(
                ident,
                config.client_ident,
            )),
{
    let before = inputs.take(k);
    let m = run(config, before).m;
    let s = stepped(m, inputs[k]);
    lemma_known(config, before);
    lemma_config(config, before);
    lemma_run_balanced(config, before);
    law_disconnected_writes_nothing(config, before);
    law_dispatch_writes_one_thing(m, inputs[k]);
    assert forall|j: int| 0 <= j < s.out.len() && #[trigger] s.out[j] is SendControl implies s.out[j]
        == s.out[0] && m.controls.len() > 0 && s.out[0]->SendControl_control == m.controls[0] by {
        assert(super::session_laws::writes(s.out[j]));
    }
}

proof fn lemma_config(config: ConfigView, inputs: Seq<InputView>)
    ensures
        same_ident(run(config, inputs).m.config.client_ident, config.client_ident),
    decreases inputs.len(),
{
    if inputs.len() > 0 {
        let before = inputs.drop_last();
        let input = inputs.last();
        let m = run(config, before).m;
        let a = Trace { m, out: Seq::<EffectView>::empty() };
        lemma_config(config, before);
        lemma_known(config, before);
        if input is Dispatch {
            lemma_dispatch(a);
        } else if let InputView::Control { generation, control } = input {
            if control is ServerIdent && generation == m.generation {
                reveal(controlled);
                lemma_server_ident(a, control->ServerIdent_0);
            } else if !(control is ServerIdent) {
                lemma_next(a, input);
            }
        } else {
            lemma_next(a, input);
        }
    }
}

} // verus!
