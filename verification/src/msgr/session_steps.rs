//! What each input does to a session where nothing is amiss, and what it does not do.

use super::control::{
    ControlView, ServerIdentView, SessionReconnectOk, SessionReset, SessionRetryGlobal,
    SessionRetry, Timestamp,
};
use super::message::MessageView;
use super::session_laws::{
    acknowledgeable, balanced, lemma_free_id, lemma_index_of, lemma_index_unique,
};
use super::session_model::{
    accept_acknowledgment, acknowledge, admission, after_fault, answered, begin_handshake,
    begin_reconnect, beyond, cancel, client_ident, complete_renewal, connected, controlled,
    deliver, dispatch, fail_all, fail_sent, fail_terminal, fault, find, free_id, identified,
    index_of, initial, prepare_replay, queue_control, receive, reconnect_ok, refresh_cookie,
    removed, renewal_due, replayed, require_ready, reset, reset_identity, retry, retry_global,
    sent_count, server_ident, set_state, start, start_transport, stepped, take_in,
    transition_allowed, trim_replay, trimmed, wait, written, ConfigView, CredentialChange,
    EffectView, Event, InputView, MachineView, PendingView, ReconnectPolicy, RenewalPending,
    RenewalState, SessionError, State, Trace,
};
use super::session_resume::{introduces, resumes};
use crate::protocol::address::same_endpoint;
use vstd::prelude::*;

verus! {

// ---------------------------------------------------------------------------
// Messages
// ---------------------------------------------------------------------------

/// The message answers a request of the book that was sent.
pub open spec fn replies_to(m: MachineView, message: MessageView, i: int) -> bool {
    &&& 0 <= i < m.book.pending.len()
    &&& m.book.pending[i].message.header.transaction_id == message.header.transaction_id
    &&& m.book.pending[i].may_have_executed
}

/// A new message is the last one received from then on, and is acknowledged. It completes the
/// request that it answers, which then waits no longer; one that answers none goes to the owner of
/// the session. Where messages are missing before it, the owner is told.
pub proof fn law_new_message_is_delivered(m: MachineView, message: MessageView)
    requires
        balanced(m.book),
        m.state == State::Ready,
        acknowledgeable(m, message.header.ack_sequence),
        message.header.sequence > m.last_inbound,
        m.controls.len() < m.config.max_queued_messages,
        m.incoming_count < m.config.max_queued_messages,
    ensures
        ({
            let s = stepped(m, InputView::Message { generation: m.generation, message });
            &&& s.m.last_inbound == message.header.sequence
            &&& s.m.controls == m.controls.push(ControlView::Ack(message.header.sequence))
            &&& s.m.state == State::Ready
            &&& s.m.generation == m.generation
            &&& message.header.sequence == m.last_inbound + 1 ==> s.out.len() == 1
            &&& message.header.sequence > m.last_inbound + 1 ==> s.out.len() == 2 && s.out[0]
                == EffectView::Event(
                Event::SequenceGap {
                    sequence: message.header.sequence,
                    expected: (m.last_inbound + 1) as u64,
                },
            )
            &&& forall|i: int| #[trigger]
                replies_to(m, message, i) ==> s.out.last() == (EffectView::Completed {
                    request_id: m.book.pending[i].request_id,
                    reply: Some(message),
                }) && s.m.book.pending == m.book.pending.remove(i) && s.m.incoming_count
                    == m.incoming_count
            &&& (forall|i: int| !#[trigger] replies_to(m, message, i)) ==> s.out.last()
                == EffectView::Incoming(message) && s.m.book.pending == m.book.pending
                && s.m.incoming_count == m.incoming_count + 1
        }),
{
    reveal(receive);
    reveal(deliver);
    reveal(accept_acknowledgment);
    reveal(queue_control);
    reveal(removed);
    let tx = message.header.transaction_id;
    let b = m.book;
    assert forall|i: int| #[trigger] replies_to(m, message, i) implies answered(b, tx) == Some(
        b.pending[i].request_id,
    ) && index_of(b.pending, b.pending[i].request_id) == Some(i) by {
        lemma_index_unique(b.pending, i);
    }
    if answered(b, tx) is Some {
        let id = answered(b, tx)->0;
        lemma_index_of(b.pending, id);
        let i = index_of(b.pending, id)->0;
        assert(replies_to(m, message, i));
    }
}

/// What a peer could not have received yet it cannot acknowledge: the connection is given up, and
/// nothing of the message is taken.
pub proof fn law_impossible_acknowledgment_is_a_fault(m: MachineView, message: MessageView)
    requires
        m.state == State::Ready,
        m.terminal_error is None,
        !acknowledgeable(m, message.header.ack_sequence),
    ensures
        ({
            let s = stepped(m, InputView::Message { generation: m.generation, message });
            &&& s.out.len() >= 2
            &&& s.out[0] == EffectView::Event(Event::TransportFault(SessionError::Malformed))
            &&& s.out[1] == (EffectView::CloseTransport { generation: m.generation })
        }),
{
    reveal(receive);
    reveal(accept_acknowledgment);
    lemma_fault_says_so(Trace { m, out: Seq::empty() }, SessionError::Malformed);
}

proof fn lemma_fault_says_so(a: Trace, error: SessionError)
    requires
        a.out.len() == 0,
        a.m.terminal_error is None,
        a.m.state != State::Stopped,
        a.m.state != State::Disconnected,
    ensures
        fault(a, error).out.len() >= 2,
        fault(a, error).out[0] == EffectView::Event(Event::TransportFault(error)),
        fault(a, error).out[1] == (EffectView::CloseTransport { generation: a.m.generation }),
{
    reveal(fault);
    let closed = super::session_model::emit(
        super::session_model::note(a, Event::TransportFault(error)),
        EffectView::CloseTransport { generation: a.m.generation },
    );
    let quiet = Trace {
        m: MachineView { write_busy: false, controls: Seq::empty(), ..closed.m },
        ..closed
    };
    lemma_after_fault_adds(quiet);
    let after = after_fault(quiet);
    let down = set_state(after, State::Disconnected);
    assert(down.out.len() >= after.out.len() && down.out.take(after.out.len() as int) =~= after.out)
        by {
        reveal(set_state);
    }
    lemma_begin_reconnect_adds(down);
    let end = begin_reconnect(down);
    assert(after.out[0] == quiet.out[0] && after.out[1] == quiet.out[1]);
    assert(down.out[0] == after.out[0] && down.out[1] == after.out[1]) by {
        assert(down.out.take(after.out.len() as int)[0] == after.out[0]);
        assert(down.out.take(after.out.len() as int)[1] == after.out[1]);
    }
    assert(end.out[0] == down.out[0] && end.out[1] == down.out[1]) by {
        assert(end.out.take(down.out.len() as int)[0] == down.out[0]);
        assert(end.out.take(down.out.len() as int)[1] == down.out[1]);
    }
}

proof fn lemma_fail_all_adds(a: Trace, error: SessionError)
    ensures
        fail_all(a, error).out.len() >= a.out.len(),
        fail_all(a, error).out.take(a.out.len() as int) == a.out,
{
    reveal(fail_all);
    assert(fail_all(a, error).out.take(a.out.len() as int) =~= a.out);
}

proof fn lemma_fail_ids_adds(a: Trace, ids: Seq<u64>)
    ensures
        super::session_model::fail_ids(a, ids).out.len() == a.out.len() + ids.len(),
        super::session_model::fail_ids(a, ids).out.take(a.out.len() as int) == a.out,
    decreases ids.len(),
{
    let b = super::session_model::fail_ids(a, ids);
    if ids.len() > 0 {
        let before = super::session_model::fail_ids(a, ids.drop_last());
        lemma_fail_ids_adds(a, ids.drop_last());
        assert(b.out.take(a.out.len() as int) =~= before.out.take(a.out.len() as int));
    } else {
        assert(b.out.take(a.out.len() as int) =~= a.out);
    }
}

proof fn lemma_after_fault_adds(a: Trace)
    ensures
        after_fault(a).out.len() >= a.out.len(),
        after_fault(a).out.take(a.out.len() as int) == a.out,
        forall|i: int| 0 <= i < a.out.len() ==> #[trigger] after_fault(a).out[i] == a.out[i],
{
    reveal(after_fault);
    reveal(fail_sent);
    reveal(reset_identity);
    lemma_fail_ids_adds(a, super::session_model::sent_ids(a.m.book.pending));
    lemma_fail_all_adds(a, SessionError::Disconnected);
    let failed = fail_sent(a);
    let cleared = Trace {
        m: MachineView {
            server_cookie: 0,
            server_flags: 0,
            connect_sequence: 0,
            last_inbound: 0,
            next_outbound: Some(1),
            next_transaction_id: Some(1),
            ..failed.m
        },
        ..failed
    };
    lemma_fail_all_adds(cleared, SessionError::Disconnected);
    let end = after_fault(a);
    assert(end.out.take(a.out.len() as int) =~= a.out) by {
        let cut = fail_all(cleared, SessionError::Disconnected);
        assert(cut.out.take(a.out.len() as int) =~= cut.out.take(cleared.out.len() as int).take(
            a.out.len() as int,
        ));
    }
    assert forall|i: int| 0 <= i < a.out.len() implies #[trigger] end.out[i] == a.out[i] by {
        assert(end.out.take(a.out.len() as int)[i] == a.out[i]);
    }
}

proof fn lemma_begin_reconnect_adds(a: Trace)
    ensures
        begin_reconnect(a).out.len() >= a.out.len(),
        begin_reconnect(a).out.take(a.out.len() as int) == a.out,
{
    reveal(begin_reconnect);
    lemma_fail_terminal_adds(a, SessionError::ReconnectExhausted);
    let trying = Trace {
        m: MachineView {
            reconnect_attempts: (a.m.reconnect_attempts + 1) as usize,
            connect_pending: true,
            ..a.m
        },
        ..a
    };
    lemma_fail_terminal_adds(trying, SessionError::TransitionLimit);
    assert(begin_reconnect(a).out.take(a.out.len() as int) =~= a.out);
}

proof fn lemma_fail_terminal_adds(a: Trace, error: SessionError)
    ensures
        fail_terminal(a, error).out.len() >= a.out.len(),
        fail_terminal(a, error).out.take(a.out.len() as int) == a.out,
        a.m.terminal_error is None ==> fail_terminal(a, error).out.len() > a.out.len()
            && fail_terminal(a, error).out[a.out.len() as int] == EffectView::Terminal(error)
            && fail_terminal(a, error).m.terminal_error == Some(error) && fail_terminal(
            a,
            error,
        ).m.state == State::Disconnected && fail_terminal(a, error).m.book.pending.len() == 0,
{
    reveal(fail_terminal);
    reveal(fail_all);
    reveal(set_state);
    assert(fail_terminal(a, error).out.take(a.out.len() as int) =~= a.out);
}

// ---------------------------------------------------------------------------
// Control payloads
// ---------------------------------------------------------------------------

/// A sign of life is answered with the time that it brought, and does nothing else.
pub proof fn law_keepalive_is_answered(m: MachineView, time: Timestamp)
    requires
        m.state == State::Ready,
        m.controls.len() < m.config.max_queued_messages,
    ensures
        stepped(
            m,
            InputView::Control { generation: m.generation, control: ControlView::Keepalive2(time) },
        ) == (Trace {
            m: MachineView { controls: m.controls.push(ControlView::Keepalive2Ack(time)), ..m },
            out: Seq::empty(),
        }),
{
    reveal(controlled);
    reveal(require_ready);
    reveal(queue_control);
}

/// Whether two sides have what the other requires, and the answer is that of the server that the
/// session is with.
pub open spec fn acceptable(m: MachineView, ident: ServerIdentView) -> bool {
    &&& ident.required_features & !m.config.client_ident.supported_features == 0
    &&& m.config.client_ident.required_features & !ident.supported_features == 0
    &&& exists|i: int|
        0 <= i < ident.addresses.len() && same_endpoint(
            #[trigger] ident.addresses[i],
            m.config.client_ident.target_address,
        )
}

/// A server that answers an introduction makes the session ready, and the session remembers who it
/// is, where it is, what it can do, under which cookie and how.
pub proof fn law_answer_makes_the_session_ready(m: MachineView, ident: ServerIdentView)
    requires
        m.state == State::Connecting,
        m.transitions < m.config.max_handshake_transitions,
        acceptable(m, ident),
        m.renewal != RenewalState::Reconnecting,
    ensures
        ({
            let s = stepped(
                m,
                InputView::Control {
                    generation: m.generation,
                    control: ControlView::ServerIdent(ident),
                },
            );
            &&& s.m.state == State::Ready
            &&& s.m.server_cookie == ident.cookie
            &&& s.m.server_global_id == ident.global_id
            &&& s.m.server_addresses == ident.addresses
            &&& s.m.server_features == ident.supported_features
            &&& s.m.server_flags == ident.flags
            &&& s.m.client_cookie == m.client_cookie
            &&& s.m.reconnect_attempts == 0
            &&& s.m.generation == m.generation
            &&& s.m.book.replay.len() == 0
            &&& s.out.len() > 0
            &&& s.out.last() == EffectView::Event(Event::StateChanged(State::Ready))
        }),
{
    reveal(controlled);
    reveal(server_ident);
    reveal(complete_renewal);
    reveal(set_state);
    reveal(fail_sent);
    let a = Trace { m, out: Seq::<EffectView>::empty() };
    let known = super::session_model::counted(a);
    let named = Trace {
        m: MachineView {
            server_cookie: ident.cookie,
            server_global_id: ident.global_id,
            server_addresses: ident.addresses,
            server_features: ident.supported_features,
            server_flags: ident.flags,
            ..known.m
        },
        ..known
    };
    lemma_fail_ids_keeps(named, super::session_model::sent_ids(named.m.book.pending));
}

proof fn lemma_fail_ids_keeps(a: Trace, ids: Seq<u64>)
    ensures
        super::session_model::fail_ids(a, ids).m == (MachineView {
            book: super::session_model::fail_ids(a, ids).m.book,
            ..a.m
        }),
    decreases ids.len(),
{
    if ids.len() > 0 {
        lemma_fail_ids_keeps(a, ids.drop_last());
    }
}

/// A server that lacks what the client requires, or requires what the client lacks, ends the session
/// for good. One that is not the server that the session is with only costs the connection.
pub proof fn law_unacceptable_answer_is_refused(m: MachineView, ident: ServerIdentView)
    requires
        m.state == State::Connecting,
        m.transitions < m.config.max_handshake_transitions,
        m.terminal_error is None,
        !acceptable(m, ident),
    ensures
        ({
            let s = stepped(
                m,
                InputView::Control {
                    generation: m.generation,
                    control: ControlView::ServerIdent(ident),
                },
            );
            let fits = ident.required_features & !m.config.client_ident.supported_features == 0
                && m.config.client_ident.required_features & !ident.supported_features == 0;
            &&& s.out.len() > 0
            &&& !fits ==> s.m.terminal_error == Some(SessionError::UnsupportedFeature) && s.out[0]
                == EffectView::Terminal(SessionError::UnsupportedFeature)
            &&& fits ==> s.out[0] == EffectView::Event(
                Event::TransportFault(SessionError::Malformed),
            ) && s.out[1] == (EffectView::CloseTransport { generation: m.generation })
        }),
{
    reveal(controlled);
    reveal(server_ident);
    let known = super::session_model::counted(Trace { m, out: Seq::empty() });
    lemma_fail_terminal_adds(known, SessionError::UnsupportedFeature);
    lemma_fault_says_so(known, SessionError::Malformed);
}

/// A server that asks to try again with a later attempt gets one that is later than both sides know,
/// and is asked to resume the same session.
pub proof fn law_retry_is_later(m: MachineView, sequence: u64)
    requires
        m.state == State::Reconnecting,
        m.transitions < m.config.max_handshake_transitions,
        m.config.max_queued_messages > 0,
        sequence < u64::MAX,
        m.global_sequence < u64::MAX,
    ensures
        ({
            let s = stepped(
                m,
                InputView::Control {
                    generation: m.generation,
                    control: ControlView::SessionRetry(
                        SessionRetry { connect_sequence: sequence },
                    ),
                },
            );
            &&& s.m.connect_sequence == sequence + 1
            &&& s.m.global_sequence == m.global_sequence
            &&& s.m.controls.len() == 1 && resumes(s.m, s.m.controls[0])
            &&& (s.m.client_cookie, s.m.server_cookie, s.m.last_inbound, s.m.state) == (
                m.client_cookie,
                m.server_cookie,
                m.last_inbound,
                State::Reconnecting,
            )
            &&& s.out == seq![EffectView::Event(Event::Retry { sequence: (sequence + 1) as u64 })]
        }),
        ({
            let s = stepped(
                m,
                InputView::Control {
                    generation: m.generation,
                    control: ControlView::SessionRetryGlobal(
                        SessionRetryGlobal { global_sequence: sequence },
                    ),
                },
            );
            &&& s.m.global_sequence > sequence && s.m.global_sequence > m.global_sequence
            &&& s.m.global_sequence == sequence + 1 || s.m.global_sequence == m.global_sequence + 1
            &&& s.m.connect_sequence == m.connect_sequence
            &&& s.m.controls.len() == 1 && resumes(s.m, s.m.controls[0])
            &&& (s.m.client_cookie, s.m.server_cookie, s.m.last_inbound, s.m.state) == (
                m.client_cookie,
                m.server_cookie,
                m.last_inbound,
                State::Reconnecting,
            )
            &&& s.out == seq![
                EffectView::Event(Event::RetryGlobal { sequence: s.m.global_sequence }),
            ]
        }),
{
    reveal(controlled);
    reveal(retry);
    reveal(retry_global);
    reveal(transition_allowed);
    reveal(queue_control);
}

/// A server that has lost the session makes the client introduce itself anew: it forgets the cookie
/// and the last message of the server. If all is lost, requests fail, numbers start again and the
/// client takes a new cookie; otherwise requests are kept.
pub proof fn law_reset_starts_anew(m: MachineView, full: bool)
    requires
        m.state == State::Reconnecting,
        m.transitions < m.config.max_handshake_transitions,
        m.controls.len() < m.config.max_queued_messages,
        m.replacement_cookies.len() > 0,
        m.replacement_cookies[0] != 0,
    ensures
        ({
            let s = stepped(
                m,
                InputView::Control {
                    generation: m.generation,
                    control: ControlView::SessionReset(SessionReset { full }),
                },
            );
            &&& s.m.state == State::Connecting
            &&& s.m.server_cookie == 0
            &&& s.m.connect_sequence == 0
            &&& s.m.last_inbound == 0
            &&& s.m.controls.len() == m.controls.len() + 1
            &&& s.m.controls.last() is ClientIdent && introduces(s.m, s.m.controls.last())
            &&& s.out.len() > 0 && s.out[0] == EffectView::Event(Event::SessionReset { full })
            &&& full ==> {
                &&& s.m.client_cookie == m.replacement_cookies[0]
                &&& s.m.next_outbound == Some(1u64)
                &&& s.m.next_transaction_id == Some(1u64)
                &&& s.m.book.pending.len() == 0
            }
            &&& !full ==> {
                &&& s.m.client_cookie == m.client_cookie
                &&& s.m.next_outbound == m.next_outbound
                &&& s.m.book.pending.len() == m.book.pending.len()
                &&& forall|i: int|
                    0 <= i < m.book.pending.len() ==> (#[trigger] s.m.book.pending[i]).request_id
                        == m.book.pending[i].request_id && s.m.book.pending[i].message
                        == m.book.pending[i].message && s.m.book.pending[i].sequence
                        == m.book.pending[i].sequence
            }
        }),
{
    reveal(controlled);
    reveal(transition_allowed);
    reveal(reset);
    reveal(refresh_cookie);
    reveal(set_state);
    reveal(fail_all);
    reveal(queue_control);
    reveal(replayed);
}

/// What a server has not received of a session that it resumes is sent again, as it was numbered
/// before; what it has received is not. No request ends.
pub proof fn law_resumed_session_sends_the_rest_again(m: MachineView, sequence: u64)
    requires
        balanced(m.book),
        m.state == State::Reconnecting,
        m.transitions < m.config.max_handshake_transitions,
        acknowledgeable(m, sequence),
        m.renewal != RenewalState::Reconnecting,
    ensures
        ({
            let s = stepped(
                m,
                InputView::Control {
                    generation: m.generation,
                    control: ControlView::SessionReconnectOk(
                        SessionReconnectOk { message_sequence: sequence },
                    ),
                },
            );
            &&& s.m.state == State::Ready
            &&& s.m.reconnect_attempts == 0
            &&& s.m.server_cookie == m.server_cookie
            &&& s.m.client_cookie == m.client_cookie
            &&& s.m.last_inbound == m.last_inbound
            &&& s.m.next_outbound == m.next_outbound
            &&& s.out == seq![
                EffectView::Event(Event::StateChanged(State::Ready)),
                EffectView::Event(Event::ReconnectOk { sequence }),
            ]
            &&& s.m.book.pending.len() == m.book.pending.len()
            &&& forall|i: int|
                0 <= i < m.book.pending.len() ==> {
                    let p = m.book.pending[i];
                    &&& (#[trigger] s.m.book.pending[i]) == (PendingView {
                        sent: s.m.book.pending[i].sent,
                        ..p
                    })
                    &&& m.book.replay.contains(p.request_id) && p.sequence > sequence
                        ==> !s.m.book.pending[i].sent
                    &&& !(m.book.replay.contains(p.request_id) && p.sequence > sequence)
                        ==> s.m.book.pending[i].sent == p.sent
                }
        }),
{
    reveal(controlled);
    reveal(reconnect_ok);
    reveal(transition_allowed);
    reveal(accept_acknowledgment);
    reveal(complete_renewal);
    reveal(set_state);
    reveal(replayed);
    law_acknowledged_requests_are_not_sent_again(m, sequence);
    assert forall|i: int| 0 <= i < m.book.pending.len() implies trimmed(
        m.book.replay,
        m.book.pending,
        sequence,
    ).contains((#[trigger] m.book.pending[i]).request_id) == (m.book.replay.contains(
        m.book.pending[i].request_id,
    ) && m.book.pending[i].sequence > sequence) by {
        lemma_index_unique(m.book.pending, i);
    }
    assert(stepped(
        m,
        InputView::Control {
            generation: m.generation,
            control: ControlView::SessionReconnectOk(
                SessionReconnectOk { message_sequence: sequence },
            ),
        },
    ).out =~= seq![
        EffectView::Event(Event::StateChanged(State::Ready)),
        EffectView::Event(Event::ReconnectOk { sequence }),
    ]);
}

/// Of the requests to send again, an acknowledgment leaves those that were sent after what it
/// covers, and no others.
pub proof fn law_acknowledged_requests_are_not_sent_again(m: MachineView, sequence: u64)
    ensures
        forall|id: u64| #[trigger]
            trimmed(m.book.replay, m.book.pending, sequence).contains(id) <==> m.book.replay.contains(
                id,
            ) && find(m.book.pending, id) is Some && find(m.book.pending, id)->0.sequence
                > sequence,
{
    lemma_trimmed_contains(m.book.replay, m.book.pending, sequence);
}

proof fn lemma_trimmed_contains(replay: Seq<u64>, pending: Seq<PendingView>, sequence: u64)
    ensures
        forall|id: u64| #[trigger]
            trimmed(replay, pending, sequence).contains(id) <==> replay.contains(id) && beyond(
                pending,
                id,
                sequence,
            ),
    decreases replay.len(),
{
    let all = trimmed(replay, pending, sequence);
    if replay.len() > 0 {
        let shorter = replay.drop_last();
        let rest = trimmed(shorter, pending, sequence);
        lemma_trimmed_contains(shorter, pending, sequence);
        assert forall|id: u64| #[trigger] all.contains(id) <==> replay.contains(id) && beyond(
            pending,
            id,
            sequence,
        ) by {
            if all.contains(id) {
                let k = choose|k: int| 0 <= k < all.len() && all[k] == id;
                if k < rest.len() {
                    assert(rest[k] == id);
                    assert(rest.contains(id));
                    let j = choose|j: int| 0 <= j < shorter.len() && shorter[j] == id;
                    assert(replay[j] == id);
                } else {
                    assert(replay[replay.len() - 1] == id);
                }
            }
            if replay.contains(id) && beyond(pending, id, sequence) {
                let j = choose|j: int| 0 <= j < replay.len() && replay[j] == id;
                if j < shorter.len() {
                    assert(shorter[j] == id);
                    assert(rest.contains(id));
                    let k = choose|k: int| 0 <= k < rest.len() && rest[k] == id;
                    assert(all[k] == id);
                } else {
                    assert(all[all.len() - 1] == id);
                }
            }
        }
    } else {
        assert(all.len() == 0);
    }
}

/// An acknowledgment is reported, and leaves of the requests to send again those that were sent after
/// what it covers. A message that answers no request acknowledges in the same way. No request ends.
pub proof fn law_acknowledgments_are_noted(m: MachineView, sequence: u64, message: MessageView)
    requires
        m.state == State::Ready,
    ensures
        acknowledgeable(m, sequence) ==> {
            let s = stepped(
                m,
                InputView::Control { generation: m.generation, control: ControlView::Ack(sequence) },
            );
            &&& s.out == seq![EffectView::Event(Event::Acknowledged { sequence })]
            &&& s.m.book.replay == trimmed(m.book.replay, m.book.pending, sequence)
            &&& s.m.book.pending == m.book.pending
            &&& s.m.last_inbound == m.last_inbound
        },
        acknowledgeable(m, message.header.ack_sequence) && message.header.sequence > m.last_inbound
            && m.controls.len() < m.config.max_queued_messages && answered(
            m.book,
            message.header.transaction_id,
        ) is None ==> {
            let s = stepped(m, InputView::Message { generation: m.generation, message });
            m.incoming_count < m.config.max_queued_messages ==> s.m.book.replay == trimmed(
                m.book.replay,
                m.book.pending,
                message.header.ack_sequence,
            )
        },
{
    reveal(controlled);
    reveal(acknowledge);
    reveal(require_ready);
    reveal(accept_acknowledgment);
    reveal(queue_control);
    reveal(receive);
    reveal(deliver);
    let s = stepped(
        m,
        InputView::Control { generation: m.generation, control: ControlView::Ack(sequence) },
    );
    if acknowledgeable(m, sequence) {
        assert(s.out =~= seq![EffectView::Event(Event::Acknowledged { sequence })]);
    }
}

/// A server that asks to wait costs the connection, which is made anew; the session is kept.
pub proof fn law_wait_costs_the_connection(m: MachineView)
    requires
        m.state == State::Connecting || m.state == State::Reconnecting,
        m.terminal_error is None,
        m.generation < u64::MAX,
        m.reconnect_attempts < m.config.max_reconnect_attempts,
        m.server_flags & 1 == 0,
        m.server_cookie != 0,
        m.config.reconnect_policy == ReconnectPolicy::ReplayPending,
    ensures
        ({
            let s = stepped(
                m,
                InputView::Control { generation: m.generation, control: ControlView::Wait },
            );
            &&& s.m.state == State::Disconnected
            &&& s.m.server_cookie == m.server_cookie
            &&& s.m.last_inbound == m.last_inbound
            &&& s.m.book.pending.len() == m.book.pending.len()
            &&& s.out == seq![
                EffectView::Event(Event::StateChanged(State::Wait)),
                EffectView::Event(Event::Wait),
                EffectView::Event(Event::TransportFault(SessionError::Disconnected)),
                EffectView::CloseTransport { generation: m.generation },
                EffectView::Event(Event::StateChanged(State::Disconnected)),
                EffectView::Connect { generation: (m.generation + 1) as u64 },
            ]
        }),
{
    reveal(controlled);
    reveal(wait);
    reveal(fault);
    reveal(after_fault);
    reveal(set_state);
    reveal(begin_reconnect);
    reveal(replayed);
    assert(super::control::CONNECTION_FLAG_LOSSY == 1u64);
    let s = stepped(
        m,
        InputView::Control { generation: m.generation, control: ControlView::Wait },
    );
    assert(s.out =~= seq![
        EffectView::Event(Event::StateChanged(State::Wait)),
        EffectView::Event(Event::Wait),
        EffectView::Event(Event::TransportFault(SessionError::Disconnected)),
        EffectView::CloseTransport { generation: m.generation },
        EffectView::Event(Event::StateChanged(State::Disconnected)),
        EffectView::Connect { generation: (m.generation + 1) as u64 },
    ]);
}

// ---------------------------------------------------------------------------
// Connections
// ---------------------------------------------------------------------------

/// A session that starts on a connection that is ready counts it and is ready. One that starts
/// without a connection asks for one.
pub proof fn law_session_starts(m: MachineView, ready: bool)
    requires
        m.state == State::Disconnected,
        !m.connect_pending,
        m.terminal_error is None,
        m.generation < u64::MAX,
        m.reconnect_attempts < m.config.max_reconnect_attempts,
    ensures
        ({
            let s = stepped(m, InputView::Start { ready });
            &&& s.m.generation == m.generation + 1
            &&& ready ==> s.m.state == State::Ready && s.m.connected_once && s.out == seq![
                EffectView::Event(Event::StateChanged(State::Ready)),
            ]
            &&& !ready ==> s.m.state == State::Disconnected && s.m.connect_pending
                && s.m.reconnect_attempts == m.reconnect_attempts + 1 && s.out == seq![
                EffectView::Connect { generation: (m.generation + 1) as u64 },
            ]
        }),
{
    reveal(start);
    reveal(start_transport);
    reveal(begin_reconnect);
    reveal(set_state);
}

/// An attempt to connect that fails is followed by another one, as long as attempts are left. The
/// last one ends the session.
pub proof fn law_attempts_to_connect_are_counted(m: MachineView)
    requires
        m.connect_pending,
        m.terminal_error is None,
        m.generation < u64::MAX,
    ensures
        ({
            let s = stepped(m, InputView::ConnectFailed { generation: m.generation });
            &&& m.reconnect_attempts < m.config.max_reconnect_attempts ==> {
                &&& s.m.reconnect_attempts == m.reconnect_attempts + 1
                &&& s.m.generation == m.generation + 1
                &&& s.m.connect_pending
                &&& s.out == seq![
                    EffectView::Event(Event::TransportFault(SessionError::Disconnected)),
                    EffectView::Connect { generation: (m.generation + 1) as u64 },
                ]
            }
            &&& m.reconnect_attempts >= m.config.max_reconnect_attempts ==> {
                &&& s.m.terminal_error == Some(SessionError::ReconnectExhausted)
                &&& !s.m.connect_pending
                &&& s.m.book.pending.len() == 0
                &&& s.out.len() > 1 && s.out[1] == EffectView::Terminal(
                    SessionError::ReconnectExhausted,
                )
            }
        }),
{
    reveal(begin_reconnect);
    reveal(fail_terminal);
    reveal(fail_all);
    reveal(set_state);
}

/// A connection that was asked for resumes a session that both sides know, as a later attempt, and
/// introduces any other under a new cookie. Connections are counted, and so are those of the client
/// from the second on.
pub proof fn law_connection_resumes_or_introduces(
    m: MachineView,
    credential_identity: Option<Seq<u8>>,
)
    requires
        m.connect_pending,
        m.state == State::Disconnected,
        m.controls.len() == 0,
        m.config.max_queued_messages > 0,
        m.generation < u64::MAX,
        m.global_sequence < u64::MAX,
        m.connect_sequence < u64::MAX,
        m.replacement_cookies.len() > 0,
        m.replacement_cookies[0] != 0,
    ensures
        ({
            let s = stepped(
                m,
                InputView::Connected {
                    generation: m.generation,
                    authenticated_global_id: None,
                    credential_identity,
                },
            );
            &&& s.m.generation == m.generation + 1
            &&& !s.m.connect_pending
            &&& s.m.connected_once
            &&& s.m.terminal_error is None
            &&& s.m.transitions == 0
            &&& m.connected_once ==> s.m.global_sequence == m.global_sequence + 1
            &&& !m.connected_once ==> s.m.global_sequence == m.global_sequence
            &&& s.m.book == m.book
            &&& s.m.last_inbound == m.last_inbound
            &&& s.m.server_cookie == m.server_cookie
            &&& s.m.controls.len() == 1
            &&& m.server_cookie != 0 ==> {
                &&& s.m.state == State::Reconnecting
                &&& s.m.client_cookie == m.client_cookie
                &&& s.m.connect_sequence == m.connect_sequence + 1
                &&& resumes(s.m, s.m.controls[0])
            }
            &&& m.server_cookie == 0 ==> {
                &&& s.m.state == State::Connecting
                &&& s.m.client_cookie == m.replacement_cookies[0]
                &&& s.m.replacement_cookies == m.replacement_cookies.skip(1)
                &&& s.m.connect_sequence == 0
                &&& s.m.controls[0] is ClientIdent && introduces(s.m, s.m.controls[0])
                &&& s.m.controls[0]->ClientIdent_0.global_sequence == s.m.global_sequence
            }
        }),
{
    reveal(connected);
    reveal(identified);
    reveal(begin_handshake);
    reveal(start_transport);
    reveal(refresh_cookie);
    reveal(set_state);
    reveal(queue_control);
}

/// A client that turns out to be another one than before is introduced anew, under its id and a new
/// cookie: its requests fail and its numbers start again.
pub proof fn law_other_identity_starts_anew(m: MachineView, id: u64, identity: Option<Seq<u8>>)
    requires
        m.connect_pending,
        m.state == State::Disconnected,
        m.controls.len() == 0,
        m.config.max_queued_messages > 0,
        m.generation < u64::MAX,
        m.global_sequence < u64::MAX,
        m.connect_sequence < u64::MAX,
        m.replacement_cookies.len() > 0,
        m.replacement_cookies[0] != 0,
        id <= i64::MAX,
    ensures
        ({
            let s = stepped(
                m,
                InputView::Connected {
                    generation: m.generation,
                    authenticated_global_id: Some(id),
                    credential_identity: identity,
                },
            );
            &&& s.m.authenticated_global_id == id
            &&& s.m.config.client_ident.global_id == id
            &&& m.authenticated_global_id != 0 && m.authenticated_global_id != id ==> {
                &&& s.m.state == State::Connecting
                &&& s.m.server_cookie == 0
                &&& s.m.client_cookie == m.replacement_cookies[0]
                &&& s.m.book.pending.len() == 0
                &&& s.m.last_inbound == 0
                &&& s.m.next_outbound == Some(1u64)
                &&& s.m.next_transaction_id == Some(1u64)
                &&& s.m.controls[0] is ClientIdent
                &&& s.m.controls[0]->ClientIdent_0.global_id == id
            }
            &&& m.authenticated_global_id == 0 || m.authenticated_global_id == id ==> {
                &&& s.m.book == m.book
                &&& s.m.server_cookie == m.server_cookie
                &&& s.m.next_outbound == m.next_outbound
                &&& s.m.last_inbound == m.last_inbound
            }
        }),
{
    reveal(connected);
    reveal(identified);
    reveal(reset_identity);
    reveal(fail_all);
    reveal(begin_handshake);
    reveal(start_transport);
    reveal(refresh_cookie);
    reveal(set_state);
    reveal(queue_control);
}

/// What becomes of requests when a connection is lost. On a session that loses no messages and whose
/// requests may be sent again, they are kept and those to send again are no longer on the way. On a
/// session that may lose messages, and where requests are not to be sent again, none is kept. Either
/// way a new connection is asked for.
pub proof fn law_lost_connection_keeps_requests(m: MachineView, error: SessionError)
    requires
        m.state == State::Ready,
        m.terminal_error is None,
        m.generation < u64::MAX,
        m.reconnect_attempts < m.config.max_reconnect_attempts,
    ensures
        ({
            let s = stepped(m, InputView::Fault { generation: m.generation, error });
            let lossy = m.server_flags & 1 != 0;
            &&& s.m.state == State::Disconnected
            &&& s.m.connect_pending
            &&& s.m.generation == m.generation + 1
            &&& s.m.controls.len() == 0
            &&& !s.m.write_busy
            &&& s.m.client_cookie == m.client_cookie
            &&& s.m.reconnect_attempts == m.reconnect_attempts + 1
            &&& s.out.len() > 0 && s.out.last() == (EffectView::Connect {
                generation: (m.generation + 1) as u64,
            })
            &&& lossy ==> s.m.server_cookie == 0 && s.m.last_inbound == 0 && s.m.next_outbound
                == Some(1u64) && s.m.book.pending.len() == 0
            &&& !lossy ==> s.m.server_cookie == m.server_cookie && s.m.last_inbound
                == m.last_inbound && s.m.next_outbound == m.next_outbound
            &&& !lossy && m.config.reconnect_policy == ReconnectPolicy::FailPending
                ==> s.m.book.pending.len() == 0
            &&& !lossy && m.config.reconnect_policy == ReconnectPolicy::ReplayPending
                && m.server_cookie != 0 ==> {
                &&& s.m.book.pending.len() == m.book.pending.len()
                &&& s.m.book.replay == m.book.replay
                &&& forall|i: int|
                    0 <= i < m.book.pending.len() ==> (#[trigger] s.m.book.pending[i]) == (
                    PendingView {
                        sent: m.book.pending[i].sent && !m.book.replay.contains(
                            m.book.pending[i].request_id,
                        ),
                        ..m.book.pending[i]
                    })
            }
        }),
{
    reveal(fault);
    reveal(after_fault);
    reveal(fail_sent);
    reveal(reset_identity);
    reveal(fail_all);
    reveal(set_state);
    reveal(begin_reconnect);
    reveal(replayed);
    assert(super::control::CONNECTION_FLAG_LOSSY == 1u64);
    let a = Trace { m, out: Seq::<EffectView>::empty() };
    let closed = super::session_model::emit(
        super::session_model::note(a, Event::TransportFault(error)),
        EffectView::CloseTransport { generation: m.generation },
    );
    let quiet = Trace {
        m: MachineView { write_busy: false, controls: Seq::empty(), ..closed.m },
        ..closed
    };
    lemma_fail_ids_keeps(quiet, super::session_model::sent_ids(quiet.m.book.pending));
}

// ---------------------------------------------------------------------------
// Requests
// ---------------------------------------------------------------------------

/// A request that fits is taken in last, under the transaction that it brings or under one that no
/// other request has, and is not on the way. Nothing else changes.
pub proof fn law_request_is_taken_in(
    m: MachineView,
    request_id: u64,
    message: MessageView,
    one_way: bool,
)
    requires
        m.terminal_error is None,
        m.state != State::Stopped,
        admission(m.config.limits, message) matches Ok(bytes) && m.book.retained_bytes + bytes
            <= m.config.max_retained_bytes,
        m.book.pending.len() < m.config.max_queued_messages,
        find(m.book.pending, request_id) is None,
        message.header.transaction_id == 0 ==> m.next_transaction_id is Some && free_id(
            m.book.by_transaction,
            m.next_transaction_id->0,
        ) is Some && m.next_transaction_id->0 > 0,
        !m.book.by_transaction.contains_key(message.header.transaction_id),
    ensures
        ({
            let s = stepped(m, InputView::Admit { request_id, message, one_way });
            &&& s.out.len() == 1
            &&& s.out[0] matches EffectView::Admitted { request_id: id, transaction_id } && {
                let p = s.m.book.pending.last();
                &&& id == request_id
                &&& message.header.transaction_id != 0 ==> transaction_id
                    == message.header.transaction_id && s.m.next_transaction_id
                    == m.next_transaction_id
                &&& message.header.transaction_id == 0 ==> transaction_id
                    >= m.next_transaction_id->0 && (s.m.next_transaction_id matches Some(next)
                    ==> next > transaction_id)
                &&& !m.book.by_transaction.contains_key(transaction_id)
                &&& s.m.book.by_transaction == m.book.by_transaction.insert(
                    transaction_id,
                    request_id,
                )
                &&& s.m.book.pending.len() == m.book.pending.len() + 1
                &&& s.m.book.pending.drop_last() == m.book.pending
                &&& p.request_id == request_id
                &&& p.one_way == one_way
                &&& !p.sent && !p.may_have_executed && p.sequence == 0
                &&& p.message.front == message.front
                &&& p.message.middle == message.middle
                &&& p.message.data == message.data
                &&& p.message.header.message_type == message.header.message_type
                &&& p.message.header.transaction_id == transaction_id
                &&& s.m.book.replay == m.book.replay
            }
            &&& (s.m.state, s.m.generation, s.m.controls, s.m.next_outbound, s.m.last_inbound) == (
                m.state,
                m.generation,
                m.controls,
                m.next_outbound,
                m.last_inbound,
            )
        }),
{
    reveal(take_in);
    let s = stepped(m, InputView::Admit { request_id, message, one_way });
    if message.header.transaction_id == 0 {
        lemma_free_id(m.book.by_transaction, m.next_transaction_id->0);
    }
    assert(s.m.book.pending.drop_last() =~= m.book.pending);
}

/// A request that cannot be taken in is refused at once, for the first of these reasons: the session
/// has ended, and how; it was stopped; the message is not one; there is no room, or a request with
/// this id waits already; or another request has its transaction. Nothing changes.
pub proof fn law_request_is_refused(
    m: MachineView,
    request_id: u64,
    message: MessageView,
    one_way: bool,
)
    ensures
        ({
            let s = stepped(m, InputView::Admit { request_id, message, one_way });
            let size = admission(m.config.limits, message);
            let ended = m.terminal_error is Some;
            let stopped = m.state == State::Stopped;
            let full = m.book.pending.len() >= m.config.max_queued_messages || find(
                m.book.pending,
                request_id,
            ) is Some || (size is Ok && m.book.retained_bytes + size->Ok_0
                > m.config.max_retained_bytes);
            let error = if ended {
                m.terminal_error->0
            } else if stopped {
                SessionError::Closed
            } else if size is Err {
                SessionError::Malformed
            } else if full {
                SessionError::QueueSaturated
            } else {
                SessionError::Malformed
            };
            ended || stopped || size is Err || full || (message.header.transaction_id != 0
                && m.book.by_transaction.contains_key(message.header.transaction_id)) ==> s == (
            Trace { m, out: seq![EffectView::Failed { request_id, error }] })
        }),
{
    reveal(take_in);
    let s = stepped(m, InputView::Admit { request_id, message, one_way });
    assert(s.out.len() == 1 ==> s.out =~= seq![s.out[0]]);
}

/// A request that is withdrawn waits no longer. Its submitter learns that it was cancelled, unless
/// it was sent: then its outcome is unknown. A request that does not wait cannot be withdrawn.
pub proof fn law_withdrawn_request_is_gone(m: MachineView, i: int, other: u64)
    requires
        balanced(m.book),
        0 <= i < m.book.pending.len(),
        forall|j: int|
            0 <= j < m.book.pending.len() ==> (#[trigger] m.book.pending[j]).request_id != other,
    ensures
        ({
            let p = m.book.pending[i];
            let s = stepped(m, InputView::Cancel { request_id: p.request_id });
            &&& s.m.book.pending == m.book.pending.remove(i)
            &&& s.out == seq![
                EffectView::Failed {
                    request_id: p.request_id,
                    error: if p.may_have_executed {
                        SessionError::OutcomeUnknown
                    } else {
                        SessionError::Cancelled
                    },
                },
            ]
        }),
        stepped(m, InputView::Cancel { request_id: other }) == (Trace { m, out: Seq::empty() }),
{
    reveal(cancel);
    reveal(removed);
    lemma_index_unique(m.book.pending, i);
    lemma_index_of(m.book.pending, other);
    let s = stepped(m, InputView::Cancel { request_id: m.book.pending[i].request_id });
    assert(s.out =~= seq![s.out[0]]);
}

/// A write that is done makes room for the next one. A request that expects no answer is then
/// complete; any other goes on waiting.
pub proof fn law_written_request_completes_if_it_expects_no_answer(m: MachineView, i: int)
    requires
        balanced(m.book),
        0 <= i < m.book.pending.len(),
    ensures
        ({
            let p = m.book.pending[i];
            let s = stepped(
                m,
                InputView::WriteComplete {
                    generation: m.generation,
                    request_id: Some(p.request_id),
                    result: Ok(()),
                },
            );
            &&& !s.m.write_busy
            &&& p.one_way ==> s.m.book.pending == m.book.pending.remove(i) && s.out == seq![
                EffectView::Completed { request_id: p.request_id, reply: None },
            ]
            &&& !p.one_way ==> s.m.book == m.book && s.out.len() == 0
        }),
        ({
            let s = stepped(
                m,
                InputView::WriteComplete {
                    generation: m.generation,
                    request_id: None,
                    result: Ok(()),
                },
            );
            s == (Trace { m: MachineView { write_busy: false, ..m }, out: Seq::empty() })
        }),
{
    reveal(written);
    reveal(removed);
    lemma_index_unique(m.book.pending, i);
    let s = stepped(
        m,
        InputView::WriteComplete {
            generation: m.generation,
            request_id: Some(m.book.pending[i].request_id),
            result: Ok(()),
        },
    );
    assert(m.book.pending[i].one_way ==> s.out =~= seq![s.out[0]]);
}

// ---------------------------------------------------------------------------
// Credentials
// ---------------------------------------------------------------------------

/// A credential that is due is renewed once no request is on the way: until then no further request
/// is sent, and then the connection is made anew. A renewal that is due during another one is not
/// forgotten.
pub proof fn law_renewal_waits_for_requests(m: MachineView)
    requires
        m.state == State::Ready,
        m.terminal_error is None,
        !m.write_busy,
        m.controls.len() == 0,
        m.config.max_in_flight_transactions > 0,
    ensures
        m.renewal == RenewalState::Idle ==> stepped(
            m,
            InputView::RenewalDue { generation: m.generation },
        ) == (Trace {
            m: MachineView { renewal: RenewalState::Draining, ..m },
            out: seq![EffectView::Event(Event::CredentialRenewal)],
        }),
        m.renewal != RenewalState::Idle ==> stepped(
            m,
            InputView::RenewalDue { generation: m.generation },
        ) == (Trace {
            m: MachineView { renewal_pending: RenewalPending::Yes, ..m },
            out: Seq::empty(),
        }),
        m.renewal == RenewalState::Draining && sent_count(m.book.pending) > 0 ==> stepped(
            m,
            InputView::Dispatch,
        ) == (Trace { m, out: Seq::empty() }),
        m.renewal == RenewalState::Draining && sent_count(m.book.pending) == 0 ==> {
            let s = stepped(m, InputView::Dispatch);
            &&& s.out.len() >= 2
            &&& s.out[0] == EffectView::Event(Event::TransportFault(SessionError::Renewal))
            &&& s.out[1] == (EffectView::CloseTransport { generation: m.generation })
        },
{
    reveal(renewal_due);
    reveal(dispatch);
    let a = Trace { m, out: Seq::<EffectView>::empty() };
    let draining = Trace { m: MachineView { renewal: RenewalState::Reconnecting, ..m }, ..a };
    lemma_fault_says_so(draining, SessionError::Renewal);
    let due = stepped(m, InputView::RenewalDue { generation: m.generation });
    assert(m.renewal == RenewalState::Idle ==> due.out =~= seq![due.out[0]]);
}

/// A renewal is complete once a session is resumed under a credential that changed, which is the
/// session's from then on. Under the old one it is a fault.
pub proof fn law_renewal_needs_a_changed_credential(m: MachineView, sequence: u64)
    requires
        m.state == State::Reconnecting,
        m.terminal_error is None,
        m.transitions < m.config.max_handshake_transitions,
        acknowledgeable(m, sequence),
        m.renewal == RenewalState::Reconnecting,
    ensures
        ({
            let s = stepped(
                m,
                InputView::Control {
                    generation: m.generation,
                    control: ControlView::SessionReconnectOk(
                        SessionReconnectOk { message_sequence: sequence },
                    ),
                },
            );
            &&& m.credential_change == CredentialChange::Changed ==> {
                &&& s.m.state == State::Ready
                &&& s.m.credential_identity == m.candidate_credential_identity
                &&& s.m.candidate_credential_identity is None
                &&& s.m.credential_change == CredentialChange::Unknown
                &&& m.renewal_pending == RenewalPending::No ==> s.m.renewal == RenewalState::Idle
                    && s.out[0] == EffectView::Event(Event::CredentialRenewalCompleted)
                &&& m.renewal_pending == RenewalPending::Yes ==> s.m.renewal
                    == RenewalState::Draining && s.m.renewal_pending == RenewalPending::No
                    && s.out[0] == EffectView::Event(Event::CredentialRenewal) && s.out[1]
                    == EffectView::Event(Event::CredentialRenewalCompleted)
            }
            &&& m.credential_change != CredentialChange::Changed ==> s.out.len() >= 2 && s.out[0]
                == EffectView::Event(Event::TransportFault(SessionError::Renewal)) && s.out[1]
                == (EffectView::CloseTransport { generation: m.generation })
        }),
{
    reveal(controlled);
    reveal(reconnect_ok);
    reveal(transition_allowed);
    reveal(accept_acknowledgment);
    reveal(complete_renewal);
    reveal(set_state);
    let a = Trace { m, out: Seq::<EffectView>::empty() };
    let ready = prepare_replay(trim_replay(super::session_model::counted(a), sequence));
    lemma_fault_says_so(ready, SessionError::Renewal);
}

/// A new connection says whether the credential is the one that the session had.
pub proof fn law_credentials_are_compared(m: MachineView, identity: Option<Seq<u8>>)
    ensures
        ({
            let seen = super::session_model::credential_seen(m, identity);
            &&& identity is None <==> seen.credential_change == CredentialChange::Unknown
            &&& identity is Some && m.credential_identity == identity <==> seen.credential_change
                == CredentialChange::Unchanged
            &&& seen.credential_change == CredentialChange::Changed
                ==> seen.candidate_credential_identity == identity
            &&& seen.credential_identity == m.credential_identity
        }),
{
}

/// A session that has not begun has the cookies, the attempt and the identity that it was made with,
/// knows of no server, and numbers messages and transactions from one.
pub proof fn law_session_begins_with_its_configuration(config: ConfigView)
    ensures
        ({
            let m = initial(config);
            &&& m.state == State::Disconnected
            &&& m.generation == 0
            &&& m.client_cookie == config.client_cookie
            &&& m.server_cookie == config.server_cookie
            &&& m.connect_sequence == config.connect_sequence
            &&& m.global_sequence >= config.global_sequence
            &&& m.global_sequence >= config.client_ident.global_sequence
            &&& m.global_sequence == config.global_sequence || m.global_sequence
                == config.client_ident.global_sequence
            &&& m.replacement_cookies == config.replacement_cookies
            &&& m.next_outbound == Some(1u64)
            &&& m.next_transaction_id == Some(1u64)
            &&& m.last_inbound == 0
            &&& m.server_flags == 0
            &&& m.book.pending.len() == 0 && m.controls.len() == 0
            &&& !m.connected_once && !m.connect_pending && !m.write_busy
        }),
{
}

} // verus!
