//! The write that is under way in a session: it ends when it is completed, or when the transport that
//! it goes to is closed.

use super::control::{ClientIdentView, ControlView, ServerIdentView};
use super::message::MessageView;
use super::session_laws::extends;
use super::session_model::{
    accept_acknowledgment, acknowledge, after_fault, after_id, begin_handshake, begin_reconnect,
    cancel, client_ident, closing, complete_renewal, connected, controlled, counted,
    credential_seen, deliver, dispatch, emit, fail_all, fail_ids, fail_sent, fail_terminal, fault,
    identified, max_u64, next, next_id, note, prepare_replay, queue_client_ident, queue_control,
    queue_reconnect, receive, reconnect_ok, reconnect_request, refresh_cookie, remove_request,
    renewal_due, require_ready, reset, reset_identity, retry, retry_global, sent_ids, server_ident,
    set_state, start, start_transport, stop, take_in, transition_allowed, trim_replay, wait,
    written, ConfigView, EffectView, Event, InputView, MachineView, RenewalState, SessionError,
    State, Trace,
};
use vstd::prelude::*;

verus! {

/// What is true of every session: a write is under way only on a connection, and a connection is
/// waited for only where there is none.
pub open spec fn grounded(m: MachineView) -> bool {
    &&& m.state == State::Disconnected ==> !m.write_busy
    &&& m.connect_pending ==> m.state == State::Disconnected
}

/// One of the effects from `from` on closes the transport of a generation.
pub open spec fn closes(out: Seq<EffectView>, from: int, generation: u64) -> bool {
    exists|k: int|
        from <= k < out.len() && #[trigger] out[k] == (EffectView::CloseTransport { generation })
}

/// A write that is under way goes on in the same generation, or its transport is closed.
pub open spec fn holds_write(a: Trace, b: Trace) -> bool {
    grounded(a.m) ==> {
        &&& extends(b.out, a.out)
        &&& grounded(b.m)
        &&& a.m.write_busy ==> (b.m.write_busy && b.m.generation == a.m.generation) || closes(
            b.out,
            a.out.len() as int,
            a.m.generation,
        )
    }
}

/// Nothing changes that a write depends on.
pub open spec fn unmoved(a: Trace, b: Trace) -> bool {
    &&& extends(b.out, a.out)
    &&& b.m.state == a.m.state
    &&& b.m.write_busy == a.m.write_busy
    &&& b.m.generation == a.m.generation
    &&& b.m.connect_pending == a.m.connect_pending
}

proof fn lemma_extends_trans(a: Trace, b: Trace, c: Trace)
    requires
        extends(b.out, a.out),
        extends(c.out, b.out),
    ensures
        extends(c.out, a.out),
        forall|k: int| 0 <= k < b.out.len() ==> #[trigger] c.out[k] == b.out[k],
{
    assert forall|k: int| 0 <= k < b.out.len() implies #[trigger] c.out[k] == b.out[k] by {
        assert(c.out.take(b.out.len() as int)[k] == b.out[k]);
    }
    assert(c.out.take(a.out.len() as int) =~= b.out.take(a.out.len() as int));
}

proof fn lemma_trans(a: Trace, b: Trace, c: Trace)
    requires
        holds_write(a, b),
        holds_write(b, c),
    ensures
        holds_write(a, c),
{
    if grounded(a.m) {
        lemma_extends_trans(a, b, c);
    }
    if grounded(a.m) && a.m.write_busy {
        if closes(b.out, a.out.len() as int, a.m.generation) {
            let k = choose|k: int|
                a.out.len() <= k < b.out.len() && #[trigger] b.out[k]
                    == (EffectView::CloseTransport { generation: a.m.generation });
            assert(c.out[k] == b.out[k]);
        } else if closes(c.out, b.out.len() as int, a.m.generation) {
            let k = choose|k: int|
                b.out.len() <= k < c.out.len() && #[trigger] c.out[k]
                    == (EffectView::CloseTransport { generation: a.m.generation });
            assert(a.out.len() <= k < c.out.len());
        }
    }
}

proof fn lemma_unmoved_trans(a: Trace, b: Trace, c: Trace)
    requires
        unmoved(a, b),
        unmoved(b, c),
    ensures
        unmoved(a, c),
{
    lemma_extends_trans(a, b, c);
}

proof fn lemma_one_more(a: Trace)
    ensures
        forall|e: EffectView| extends(#[trigger] a.out.push(e), a.out),
{
    assert forall|e: EffectView| extends(#[trigger] a.out.push(e), a.out) by {
        assert(a.out.push(e).take(a.out.len() as int) =~= a.out);
    }
}

proof fn lemma_emit(a: Trace, effect: EffectView)
    ensures
        unmoved(a, emit(a, effect)),
{
    assert(emit(a, effect).out.take(a.out.len() as int) =~= a.out);
}

proof fn lemma_self(a: Trace)
    ensures
        extends(a.out, a.out),
{
    assert(a.out.take(a.out.len() as int) =~= a.out);
}

proof fn lemma_fail_all(a: Trace, error: SessionError)
    ensures
        unmoved(a, fail_all(a, error)),
{
    reveal(fail_all);
    assert(fail_all(a, error).out.take(a.out.len() as int) =~= a.out);
}

proof fn lemma_fail_ids(a: Trace, ids: Seq<u64>)
    ensures
        unmoved(a, fail_ids(a, ids)),
    decreases ids.len(),
{
    lemma_self(a);
    if ids.len() > 0 {
        let before = fail_ids(a, ids.drop_last());
        let less = remove_request(before, ids.last());
        lemma_fail_ids(a, ids.drop_last());
        lemma_emit(
            less,
            EffectView::Failed { request_id: ids.last(), error: SessionError::OutcomeUnknown },
        );
        lemma_unmoved_trans(a, before, fail_ids(a, ids));
    }
}

proof fn lemma_fail_sent(a: Trace)
    ensures
        unmoved(a, fail_sent(a)),
{
    reveal(fail_sent);
    lemma_fail_ids(a, sent_ids(a.m.book.pending));
}

proof fn lemma_set_state(a: Trace, state: State)
    ensures
        extends(set_state(a, state).out, a.out),
        set_state(a, state).m == (MachineView { state, ..a.m }),
{
    reveal(set_state);
    lemma_self(a);
    let changed = Trace { m: MachineView { state, ..a.m }, ..a };
    lemma_emit(changed, EffectView::Event(Event::StateChanged(state)));
    assert(set_state(a, state).m =~= (MachineView { state, ..a.m }));
}

/// Closing the transport of the present generation ends the write.
proof fn lemma_closed(a: Trace, b: Trace, c: Trace)
    requires
        extends(b.out, a.out),
        b.out.len() > a.out.len(),
        b.out.last() == (EffectView::CloseTransport { generation: a.m.generation }),
        extends(c.out, b.out),
        grounded(c.m),
    ensures
        holds_write(a, c),
{
    lemma_extends_trans(a, b, c);
    let k = b.out.len() - 1;
    assert(c.out[k] == b.out[k]);
}

proof fn lemma_fail_terminal(a: Trace, error: SessionError)
    ensures
        holds_write(a, fail_terminal(a, error)),
        extends(fail_terminal(a, error).out, a.out),
        a.m.terminal_error is None ==> grounded(fail_terminal(a, error).m),
{
    reveal(fail_terminal);
    lemma_self(a);
    if a.m.terminal_error is None {
        let marked = note(
            emit(
                Trace { m: MachineView { terminal_error: Some(error), ..a.m }, ..a },
                EffectView::Terminal(error),
            ),
            Event::TransportFault(error),
        );
        let quiet = emit(
            Trace {
                m: MachineView {
                    write_busy: false,
                    controls: Seq::empty(),
                    connect_pending: false,
                    ..marked.m
                },
                ..marked
            },
            EffectView::CloseTransport { generation: a.m.generation },
        );
        assert(quiet.out.take(a.out.len() as int) =~= a.out);
        lemma_fail_all(quiet, error);
        lemma_set_state(fail_all(quiet, error), State::Disconnected);
        lemma_extends_trans(quiet, fail_all(quiet, error), fail_terminal(a, error));
        lemma_closed(a, quiet, fail_terminal(a, error));
        lemma_extends_trans(a, quiet, fail_terminal(a, error));
    } else {
        assert(a.out.take(a.out.len() as int) =~= a.out);
    }
}

/// Asking for a connection where there is none.
proof fn lemma_begin_reconnect(a: Trace)
    requires
        a.m.state == State::Disconnected,
        !a.m.write_busy,
    ensures
        extends(begin_reconnect(a).out, a.out),
        grounded(begin_reconnect(a).m),
{
    reveal(begin_reconnect);
    lemma_fail_terminal(a, SessionError::ReconnectExhausted);
    let trying = Trace {
        m: MachineView {
            reconnect_attempts: (a.m.reconnect_attempts + 1) as usize,
            connect_pending: true,
            ..a.m
        },
        ..a
    };
    lemma_fail_terminal(trying, SessionError::TransitionLimit);
    let generation = (a.m.generation + 1) as u64;
    lemma_emit(
        Trace { m: MachineView { generation, ..trying.m }, ..trying },
        EffectView::Connect { generation },
    );
}

proof fn lemma_after_fault(a: Trace)
    ensures
        unmoved(a, after_fault(a)),
{
    reveal(after_fault);
    reveal(reset_identity);
    lemma_self(a);
    let failed = fail_sent(a);
    lemma_fail_sent(a);
    let renumbered = Trace {
        m: MachineView {
            server_cookie: 0,
            server_flags: 0,
            connect_sequence: 0,
            last_inbound: 0,
            next_outbound: Some(1),
            next_transaction_id: Some(1),
            ..failed.m
        },
        ..failed
    };
    lemma_fail_all(renumbered, SessionError::Disconnected);
    lemma_unmoved_trans(a, failed, reset_identity(failed));
    lemma_fail_all(a, SessionError::Disconnected);
}

proof fn lemma_fault(a: Trace, error: SessionError)
    ensures
        holds_write(a, fault(a, error)),
{
    reveal(fault);
    lemma_self(a);
    if !(a.m.terminal_error is Some || a.m.state == State::Stopped || (a.m.state
        == State::Disconnected && a.m.connect_pending)) {
        let closed = emit(
            note(a, Event::TransportFault(error)),
            EffectView::CloseTransport { generation: a.m.generation },
        );
        let quiet = Trace {
            m: MachineView { write_busy: false, controls: Seq::empty(), ..closed.m },
            ..closed
        };
        let after = after_fault(quiet);
        let down = set_state(after, State::Disconnected);
        assert(closed.out.take(a.out.len() as int) =~= a.out);
        lemma_after_fault(quiet);
        lemma_set_state(after, State::Disconnected);
        lemma_begin_reconnect(down);
        lemma_extends_trans(quiet, after, down);
        lemma_extends_trans(quiet, down, fault(a, error));
        lemma_closed(a, quiet, fault(a, error));
    }
}

/// A connection stands where none did.
proof fn lemma_start_transport(a: Trace, state: State)
    requires
        !a.m.write_busy,
        !a.m.connect_pending,
    ensures
        extends(start_transport(a, state).0.out, a.out),
        grounded(start_transport(a, state).0.m),
        !start_transport(a, state).0.m.connect_pending,
{
    reveal(start_transport);
    lemma_fail_terminal(a, SessionError::TransitionLimit);
    if a.m.generation == u64::MAX {
        reveal(fail_terminal);
        if a.m.terminal_error is None {
            lemma_terminal_waits_for_nothing(a, SessionError::TransitionLimit);
        }
    }
    let up = Trace { m: MachineView { generation: (a.m.generation + 1) as u64, ..a.m }, ..a };
    lemma_set_state(up, state);
}

proof fn lemma_terminal_waits_for_nothing(a: Trace, error: SessionError)
    requires
        a.m.terminal_error is None,
    ensures
        !fail_terminal(a, error).m.connect_pending,
        !fail_terminal(a, error).m.write_busy,
{
    reveal(fail_terminal);
    reveal(set_state);
    reveal(fail_all);
}

proof fn lemma_queue_control(a: Trace, control: ControlView)
    ensures
        holds_write(a, queue_control(a, control)),
{
    reveal(queue_control);
    lemma_self(a);
    lemma_fault(a, SessionError::QueueSaturated);
}

proof fn lemma_queue_reconnect(a: Trace)
    ensures
        holds_write(a, queue_reconnect(a)),
{
    lemma_self(a);
    let cleared = Trace { m: MachineView { controls: Seq::empty(), ..a.m }, ..a };
    lemma_queue_control(cleared, reconnect_request(a.m));
}

proof fn lemma_refresh_cookie(a: Trace)
    ensures
        holds_write(a, refresh_cookie(a).0),
        refresh_cookie(a).1 ==> unmoved(a, refresh_cookie(a).0),
{
    reveal(refresh_cookie);
    lemma_self(a);
    lemma_fail_terminal(a, SessionError::Disconnected);
    let taken = Trace {
        m: MachineView { replacement_cookies: a.m.replacement_cookies.skip(1), ..a.m },
        ..a
    };
    lemma_fail_terminal(taken, SessionError::Malformed);
}

proof fn lemma_require_ready(a: Trace)
    ensures
        holds_write(a, require_ready(a).0),
        require_ready(a).1 ==> require_ready(a).0 == a,
{
    reveal(require_ready);
    lemma_self(a);
    lemma_fault(a, SessionError::Malformed);
}

proof fn lemma_transition_allowed(a: Trace, expected: State)
    ensures
        holds_write(a, transition_allowed(a, expected).0),
        transition_allowed(a, expected).1 ==> unmoved(a, transition_allowed(a, expected).0)
            && a.m.state == expected,
{
    reveal(transition_allowed);
    lemma_self(a);
    lemma_fault(a, SessionError::Malformed);
    lemma_fault(counted(a), SessionError::TransitionLimit);
}

proof fn lemma_accept(a: Trace, sequence: u64)
    ensures
        holds_write(a, accept_acknowledgment(a, sequence).0),
        accept_acknowledgment(a, sequence).1 ==> accept_acknowledgment(a, sequence).0 == a,
{
    reveal(accept_acknowledgment);
    lemma_self(a);
    lemma_fault(a, SessionError::Malformed);
}

proof fn lemma_complete_renewal(a: Trace)
    ensures
        holds_write(a, complete_renewal(a).0),
        complete_renewal(a).1 ==> unmoved(a, complete_renewal(a).0),
{
    reveal(complete_renewal);
    lemma_self(a);
    lemma_fault(a, SessionError::Renewal);
    let b = complete_renewal(a).0;
    if complete_renewal(a).1 {
        assert(b.out.take(a.out.len() as int) =~= a.out);
    }
}

/// A state other than the disconnected one is taken on, where no connection is waited for.
proof fn lemma_state_taken(a: Trace, state: State)
    requires
        state != State::Disconnected,
        !a.m.connect_pending,
    ensures
        holds_write(a, set_state(a, state)),
{
    lemma_set_state(a, state);
}

proof fn lemma_reset(a: Trace, full: bool)
    requires
        grounded(a.m),
        a.m.state != State::Disconnected,
    ensures
        holds_write(a, reset(a, full)),
{
    reveal(reset);
    let told = note(a, Event::SessionReset { full });
    let cleared = Trace {
        m: MachineView {
            server_cookie: 0,
            server_flags: 0,
            connect_sequence: 0,
            last_inbound: 0,
            ..told.m
        },
        ..told
    };
    lemma_emit(a, EffectView::Event(Event::SessionReset { full }));
    assert(holds_write(a, cleared));
    if full {
        let (fresh, ok) = refresh_cookie(cleared);
        lemma_refresh_cookie(cleared);
        lemma_trans(a, cleared, fresh);
        if ok {
            let renumbered = Trace {
                m: MachineView {
                    next_outbound: Some(1),
                    next_transaction_id: Some(1),
                    ..fresh.m
                },
                ..fresh
            };
            let failed = fail_all(renumbered, SessionError::Disconnected);
            let back = set_state(failed, State::Connecting);
            lemma_fail_all(renumbered, SessionError::Disconnected);
            lemma_trans(a, fresh, failed);
            lemma_state_taken(failed, State::Connecting);
            lemma_trans(a, failed, back);
            lemma_queue_control(back, client_ident(back.m));
            lemma_trans(a, back, queue_client_ident(back));
        }
    } else {
        let again = prepare_replay(cleared);
        let back = set_state(again, State::Connecting);
        lemma_self(cleared);
        lemma_state_taken(again, State::Connecting);
        lemma_trans(a, again, back);
        lemma_queue_control(back, client_ident(back.m));
        lemma_trans(a, back, queue_client_ident(back));
    }
}

proof fn lemma_start(a: Trace, ready: bool)
    ensures
        holds_write(a, start(a, ready)),
{
    reveal(start);
    lemma_self(a);
    if !(a.m.state != State::Disconnected || a.m.connect_pending || a.m.terminal_error is Some) {
        if grounded(a.m) {
            if ready {
                lemma_start_transport(
                    Trace { m: MachineView { connected_once: true, ..a.m }, ..a },
                    State::Ready,
                );
            } else {
                lemma_begin_reconnect(a);
            }
        }
    }
}

proof fn lemma_identified(a: Trace, global_id: Option<u64>)
    ensures
        holds_write(a, identified(a, global_id).0),
        identified(a, global_id).1 ==> unmoved(a, identified(a, global_id).0),
{
    reveal(identified);
    reveal(reset_identity);
    lemma_self(a);
    if let Some(id) = global_id {
        let known = Trace { m: MachineView { authenticated_global_id: id, ..a.m }, ..a };
        lemma_fail_terminal(known, SessionError::Malformed);
        if id <= i64::MAX {
            let named = Trace {
                m: MachineView {
                    config: ConfigView {
                        client_ident: ClientIdentView {
                            global_id: id as i64,
                            ..known.m.config.client_ident
                        },
                        ..known.m.config
                    },
                    ..known.m
                },
                ..known
            };
            let renumbered = Trace {
                m: MachineView {
                    server_cookie: 0,
                    server_flags: 0,
                    connect_sequence: 0,
                    last_inbound: 0,
                    next_outbound: Some(1),
                    next_transaction_id: Some(1),
                    ..named.m
                },
                ..named
            };
            lemma_fail_all(renumbered, SessionError::Disconnected);
        }
    }
}

proof fn lemma_closing(a: Trace, b: Trace, generation: u64)
    requires
        holds_write(a, b),
    ensures
        holds_write(a, closing(b, generation)),
{
    lemma_emit(b, EffectView::CloseTransport { generation });
    lemma_trans(a, b, closing(b, generation));
}

/// A handshake begins where no write is under way.
proof fn lemma_begin_handshake(a: Trace, generation: u64)
    requires
        !a.m.write_busy,
        !a.m.connect_pending,
    ensures
        holds_write(a, begin_handshake(a, generation)),
{
    reveal(begin_handshake);
    if grounded(a.m) {
        lemma_self(a);
        if a.m.server_cookie != 0 {
            if a.m.connect_sequence == u64::MAX {
                lemma_fail_terminal(a, SessionError::TransitionLimit);
                lemma_closing(a, fail_terminal(a, SessionError::TransitionLimit), generation);
            } else {
                let more = Trace {
                    m: MachineView { connect_sequence: (a.m.connect_sequence + 1) as u64, ..a.m },
                    ..a
                };
                let up = start_transport(more, State::Reconnecting).0;
                lemma_start_transport(more, State::Reconnecting);
                lemma_closing(a, up, generation);
                lemma_queue_reconnect(up);
                lemma_trans(a, up, queue_reconnect(up));
            }
        } else {
            let (fresh, refreshed) = refresh_cookie(a);
            lemma_refresh_cookie(a);
            lemma_closing(a, fresh, generation);
            if refreshed {
                let none = Trace { m: MachineView { connect_sequence: 0, ..fresh.m }, ..fresh };
                let up = start_transport(none, State::Connecting).0;
                lemma_start_transport(none, State::Connecting);
                lemma_extends_trans(a, fresh, up);
                lemma_closing(a, up, generation);
                lemma_queue_control(up, client_ident(up.m));
                lemma_trans(a, up, queue_client_ident(up));
            }
        }
    }
}

proof fn lemma_connected(
    a: Trace,
    generation: u64,
    global_id: Option<u64>,
    identity: Option<Seq<u8>>,
)
    ensures
        holds_write(a, connected(a, generation, global_id, identity)),
{
    reveal(connected);
    lemma_self(a);
    lemma_closing(a, a, generation);
    if grounded(a.m) && generation == a.m.generation && a.m.connect_pending {
        let met = Trace {
            m: MachineView {
                connect_pending: false,
                terminal_error: None,
                transitions: 0,
                ..a.m
            },
            ..a
        };
        assert(holds_write(a, met));
        lemma_fail_terminal(met, SessionError::TransitionLimit);
        lemma_trans(a, met, fail_terminal(met, SessionError::TransitionLimit));
        lemma_closing(a, fail_terminal(met, SessionError::TransitionLimit), generation);
        if !(met.m.connected_once && met.m.global_sequence == u64::MAX) {
            let again = Trace {
                m: MachineView {
                    global_sequence: if met.m.connected_once {
                        (met.m.global_sequence + 1) as u64
                    } else {
                        met.m.global_sequence
                    },
                    connected_once: true,
                    ..met.m
                },
                ..met
            };
            let (known, ok) = identified(again, global_id);
            lemma_identified(again, global_id);
            lemma_trans(a, again, known);
            lemma_closing(a, known, generation);
            if ok {
                let seen = Trace { m: credential_seen(known.m, identity), ..known };
                lemma_self(known);
                lemma_trans(a, known, seen);
                lemma_begin_handshake(seen, generation);
                lemma_trans(a, seen, begin_handshake(seen, generation));
            }
        }
    }
}

proof fn lemma_take_in(a: Trace, request_id: u64, message: MessageView, one_way: bool)
    ensures
        holds_write(a, take_in(a, request_id, message, one_way)),
{
    reveal(take_in);
    let id = next_id(a.m);
    let numbered = Trace {
        m: MachineView { next_transaction_id: after_id(id), ..a.m },
        ..a
    };
    let ended = fail_terminal(numbered, SessionError::TransitionLimit);
    lemma_self(a);
    lemma_one_more(a);
    lemma_fail_terminal(numbered, SessionError::TransitionLimit);
    lemma_emit(
        ended,
        EffectView::Failed { request_id, error: SessionError::TransitionLimit },
    );
    lemma_trans(
        a,
        ended,
        emit(ended, EffectView::Failed { request_id, error: SessionError::TransitionLimit }),
    );
}

proof fn lemma_cancel(a: Trace, request_id: u64)
    ensures
        holds_write(a, cancel(a, request_id)),
{
    reveal(cancel);
    lemma_self(a);
    let b = cancel(a, request_id);
    assert(b.out.take(a.out.len() as int) =~= a.out);
}

proof fn lemma_dispatch(a: Trace)
    ensures
        holds_write(a, dispatch(a)),
{
    reveal(dispatch);
    lemma_self(a);
    lemma_one_more(a);
    let draining = Trace { m: MachineView { renewal: RenewalState::Reconnecting, ..a.m }, ..a };
    lemma_fault(draining, SessionError::Renewal);
    lemma_fail_terminal(a, SessionError::TransitionLimit);
}

proof fn lemma_deliver(a: Trace, message: MessageView)
    ensures
        holds_write(a, deliver(a, message)),
{
    reveal(deliver);
    lemma_self(a);
    lemma_one_more(a);
    lemma_fail_terminal(a, SessionError::QueueSaturated);
}

proof fn lemma_receive(a: Trace, message: MessageView)
    ensures
        holds_write(a, receive(a, message)),
{
    reveal(receive);
    let sequence = message.header.sequence;
    lemma_self(a);
    lemma_fault(a, SessionError::Malformed);
    lemma_accept(a, message.header.ack_sequence);
    lemma_emit(a, EffectView::Event(Event::DuplicateDropped { sequence }));
    if sequence > a.m.last_inbound {
        let expected = (a.m.last_inbound + 1) as u64;
        let gap = note(a, Event::SequenceGap { sequence, expected });
        let told = if sequence != expected {
            gap
        } else {
            a
        };
        lemma_emit(a, EffectView::Event(Event::SequenceGap { sequence, expected }));
        let seen = trim_replay(
            Trace { m: MachineView { last_inbound: sequence, ..told.m }, ..told },
            message.header.ack_sequence,
        );
        let queued = queue_control(seen, ControlView::Ack(sequence));
        lemma_queue_control(seen, ControlView::Ack(sequence));
        lemma_trans(a, seen, queued);
        lemma_deliver(queued, message);
        lemma_trans(a, queued, deliver(queued, message));
    }
}

proof fn lemma_server_ident(a: Trace, ident: ServerIdentView)
    ensures
        holds_write(a, server_ident(a, ident)),
{
    reveal(server_ident);
    let known = counted(a);
    lemma_self(a);
    lemma_fault(a, SessionError::Malformed);
    lemma_fault(known, SessionError::TransitionLimit);
    lemma_fault(known, SessionError::Malformed);
    lemma_fail_terminal(known, SessionError::UnsupportedFeature);
    if grounded(a.m) && a.m.state == State::Connecting {
        let named = Trace {
            m: MachineView {
                server_cookie: ident.cookie,
                server_global_id: ident.global_id,
                server_addresses: ident.addresses,
                server_features: ident.supported_features,
                server_flags: ident.flags,
                ..known.m
            },
            ..known
        };
        let failed = fail_sent(named);
        let (renewed, ok) = complete_renewal(failed);
        lemma_fail_sent(named);
        lemma_complete_renewal(failed);
        lemma_trans(a, failed, renewed);
        if ok {
            let fresh = Trace { m: MachineView { reconnect_attempts: 0, ..renewed.m }, ..renewed };
            lemma_state_taken(fresh, State::Ready);
            lemma_trans(a, fresh, set_state(fresh, State::Ready));
        }
    }
}

proof fn lemma_retry(a: Trace, connect_sequence: u64)
    ensures
        holds_write(a, retry(a, connect_sequence)),
{
    reveal(retry);
    let (allowed, ok) = transition_allowed(a, State::Reconnecting);
    lemma_transition_allowed(a, State::Reconnecting);
    lemma_fail_terminal(allowed, SessionError::TransitionLimit);
    lemma_trans(a, allowed, fail_terminal(allowed, SessionError::TransitionLimit));
    if connect_sequence != u64::MAX {
        let next = (connect_sequence + 1) as u64;
        let numbered = Trace {
            m: MachineView { connect_sequence: next, ..allowed.m },
            ..allowed
        };
        let told = note(numbered, Event::Retry { sequence: next });
        lemma_emit(numbered, EffectView::Event(Event::Retry { sequence: next }));
        lemma_trans(a, allowed, told);
        lemma_queue_reconnect(told);
        lemma_trans(a, told, queue_reconnect(told));
    }
}

proof fn lemma_retry_global(a: Trace, global_sequence: u64)
    ensures
        holds_write(a, retry_global(a, global_sequence)),
{
    reveal(retry_global);
    let (allowed, ok) = transition_allowed(a, State::Reconnecting);
    let highest = max_u64(allowed.m.global_sequence, global_sequence);
    lemma_transition_allowed(a, State::Reconnecting);
    lemma_fail_terminal(allowed, SessionError::TransitionLimit);
    lemma_trans(a, allowed, fail_terminal(allowed, SessionError::TransitionLimit));
    if highest != u64::MAX {
        let next = (highest + 1) as u64;
        let numbered = Trace {
            m: MachineView { global_sequence: next, ..allowed.m },
            ..allowed
        };
        let told = note(numbered, Event::RetryGlobal { sequence: next });
        lemma_emit(numbered, EffectView::Event(Event::RetryGlobal { sequence: next }));
        lemma_trans(a, allowed, told);
        lemma_queue_reconnect(told);
        lemma_trans(a, told, queue_reconnect(told));
    }
}

proof fn lemma_wait(a: Trace)
    ensures
        holds_write(a, wait(a)),
{
    reveal(wait);
    lemma_fault(a, SessionError::Malformed);
    if grounded(a.m) && (a.m.state == State::Connecting || a.m.state == State::Reconnecting) {
        let waiting = set_state(counted(a), State::Wait);
        let told = note(waiting, Event::Wait);
        lemma_self(a);
        lemma_state_taken(counted(a), State::Wait);
        lemma_emit(waiting, EffectView::Event(Event::Wait));
        lemma_trans(a, waiting, told);
        lemma_fault(told, SessionError::Disconnected);
        lemma_trans(a, told, fault(told, SessionError::Disconnected));
    }
}

proof fn lemma_reconnect_ok(a: Trace, message_sequence: u64)
    ensures
        holds_write(a, reconnect_ok(a, message_sequence)),
{
    reveal(reconnect_ok);
    let (allowed, ok) = transition_allowed(a, State::Reconnecting);
    lemma_transition_allowed(a, State::Reconnecting);
    if grounded(a.m) && ok {
        let (checked, acceptable) = accept_acknowledgment(allowed, message_sequence);
        lemma_accept(allowed, message_sequence);
        lemma_trans(a, allowed, checked);
        if acceptable {
            let trimmed = prepare_replay(trim_replay(checked, message_sequence));
            let (renewed, done) = complete_renewal(trimmed);
            lemma_self(checked);
            lemma_trans(a, checked, trimmed);
            lemma_complete_renewal(trimmed);
            lemma_trans(a, trimmed, renewed);
            if done {
                let fresh = Trace {
                    m: MachineView { reconnect_attempts: 0, ..renewed.m },
                    ..renewed
                };
                let up = set_state(fresh, State::Ready);
                lemma_state_taken(fresh, State::Ready);
                lemma_trans(a, fresh, up);
                lemma_emit(
                    up,
                    EffectView::Event(Event::ReconnectOk { sequence: message_sequence }),
                );
                lemma_trans(a, up, note(up, Event::ReconnectOk { sequence: message_sequence }));
            }
        }
    }
}

proof fn lemma_acknowledge(a: Trace, sequence: u64)
    ensures
        holds_write(a, acknowledge(a, sequence)),
{
    reveal(acknowledge);
    lemma_require_ready(a);
    lemma_accept(a, sequence);
    let less = trim_replay(a, sequence);
    lemma_emit(less, EffectView::Event(Event::Acknowledged { sequence }));
}

proof fn lemma_controlled(a: Trace, control: ControlView)
    ensures
        holds_write(a, controlled(a, control)),
{
    reveal(controlled);
    lemma_require_ready(a);
    match control {
        ControlView::Ack(sequence) => {
            lemma_acknowledge(a, sequence);
        },
        ControlView::Keepalive2(time) => {
            lemma_queue_control(a, ControlView::Keepalive2Ack(time));
        },
        ControlView::Keepalive2Ack(_) => {
            lemma_emit(a, EffectView::Event(Event::KeepaliveAck));
        },
        ControlView::SessionReset(v) => {
            let (allowed, ok) = transition_allowed(a, State::Reconnecting);
            lemma_transition_allowed(a, State::Reconnecting);
            if grounded(a.m) && ok {
                lemma_reset(allowed, v.full);
                lemma_trans(a, allowed, reset(allowed, v.full));
            }
        },
        ControlView::SessionRetry(v) => {
            lemma_retry(a, v.connect_sequence);
        },
        ControlView::SessionRetryGlobal(v) => {
            lemma_retry_global(a, v.global_sequence);
        },
        ControlView::Wait => {
            lemma_wait(a);
        },
        ControlView::SessionReconnectOk(v) => {
            lemma_reconnect_ok(a, v.message_sequence);
        },
        ControlView::ServerIdent(ident) => {
            lemma_server_ident(a, ident);
        },
        ControlView::IdentMissingFeatures(_) => {
            lemma_fail_terminal(a, SessionError::UnsupportedPayload);
        },
        _ => {
            lemma_fault(a, SessionError::UnsupportedPayload);
        },
    }
}

proof fn lemma_stop(a: Trace)
    ensures
        holds_write(a, stop(a)),
{
    reveal(stop);
    lemma_self(a);
    if a.m.state != State::Stopped {
        let stopped = set_state(a, State::Stopped);
        let failed = fail_all(stopped, SessionError::Closed);
        lemma_set_state(a, State::Stopped);
        lemma_fail_all(stopped, SessionError::Closed);
        lemma_extends_trans(a, stopped, failed);
        let still = Trace { m: MachineView { connect_pending: false, ..failed.m }, ..failed };
        lemma_emit(still, EffectView::CloseTransport { generation: a.m.generation });
        lemma_extends_trans(a, failed, stop(a));
    }
}

proof fn lemma_written(
    a: Trace,
    generation: u64,
    request_id: Option<u64>,
    result: Result<(), SessionError>,
)
    requires
        grounded(a.m),
    ensures
        grounded(written(a, generation, request_id, result).m),
        generation != a.m.generation ==> written(a, generation, request_id, result) == a,
{
    reveal(written);
    let free = Trace { m: MachineView { write_busy: false, ..a.m }, ..a };
    if let Err(error) = result {
        lemma_fault(free, error);
    }
}

/// What an input does to the write that is under way.
pub proof fn lemma_next_holds_write(a: Trace, input: InputView)
    requires
        grounded(a.m),
    ensures
        grounded(next(a, input).m),
        (input matches InputView::WriteComplete { generation, .. } && generation
            == a.m.generation) || holds_write(a, next(a, input)),
{
    lemma_self(a);
    match input {
        InputView::Start { ready } => {
            lemma_start(a, ready);
        },
        InputView::InitialConnection { authenticated_global_id, credential_identity } => {
            let ready = Trace { m: MachineView { connect_pending: true, ..a.m }, ..a };
            lemma_connected(ready, a.m.generation, authenticated_global_id, credential_identity);
        },
        InputView::Admit { request_id, message, one_way } => {
            lemma_take_in(a, request_id, message, one_way);
        },
        InputView::Cancel { request_id } => {
            lemma_cancel(a, request_id);
        },
        InputView::Dispatch => {
            lemma_dispatch(a);
        },
        InputView::WriteComplete { generation, request_id, result } => {
            lemma_written(a, generation, request_id, result);
        },
        InputView::Connected { generation, authenticated_global_id, credential_identity } => {
            lemma_connected(a, generation, authenticated_global_id, credential_identity);
        },
        InputView::ConnectFailed { generation } => {
            if generation == a.m.generation && a.m.connect_pending {
                let failed = Trace { m: MachineView { connect_pending: false, ..a.m }, ..a };
                let told = note(failed, Event::TransportFault(SessionError::Disconnected));
                lemma_emit(
                    failed,
                    EffectView::Event(Event::TransportFault(SessionError::Disconnected)),
                );
                lemma_begin_reconnect(told);
                lemma_extends_trans(a, told, begin_reconnect(told));
            }
        },
        InputView::Control { control, .. } => {
            lemma_controlled(a, control);
        },
        InputView::Message { message, .. } => {
            lemma_receive(a, message);
        },
        InputView::Fault { error, .. } => {
            lemma_fault(a, error);
        },
        InputView::RenewalDue { .. } => {
            reveal(renewal_due);
            let draining = Trace { m: MachineView { renewal: RenewalState::Draining, ..a.m }, ..a };
            lemma_emit(draining, EffectView::Event(Event::CredentialRenewal));
        },
        InputView::Stop => {
            lemma_stop(a);
        },
        _ => {},
    }
}

} // verus!
