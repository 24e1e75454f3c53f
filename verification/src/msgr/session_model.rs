//! The session protocol as a transition system: what each input does to a session, and which
//! effects it asks for.

use super::control::{
    ClientIdentView, ControlView, ServerIdentView, SessionReconnectView, CONNECTION_FLAG_LOSSY,
};
use super::frame::{crc_encoding, FrameError, Limits};
use super::message::{lengths_agree, message_encoding, MessageHeader, MessageView};
use super::message::MESSAGE_HEADER_SIZE;
use super::secure::frame_fault;
use crate::protocol::address::{same_endpoint, AddressView};
use vstd::prelude::*;

verus! {

#[derive(Clone, Copy, Debug, PartialEq, Eq, Structural)]
pub enum State {
    Disconnected,
    Connecting,
    Reconnecting,
    Ready,
    Wait,
    Stopped,
}

/// What becomes of requests that were sent when a connection fails.
#[derive(Clone, Copy, Debug, PartialEq, Eq, Structural)]
pub enum ReconnectPolicy {
    FailPending,
    ReplayPending,
}

#[derive(Clone, Copy, Debug, PartialEq, Eq, Structural)]
pub enum SessionError {
    Closed,
    Disconnected,
    Cancelled,
    QueueSaturated,
    TooManyInFlight,
    TransitionLimit,
    ReconnectExhausted,
    OutcomeUnknown,
    Renewal,
    Malformed,
    UnsupportedFeature,
    UnsupportedPayload,
    Frame(FrameError),
}

#[derive(Clone, Copy, Debug, PartialEq, Eq, Structural)]
pub enum Event {
    StateChanged(State),
    SequenceGap { sequence: u64, expected: u64 },
    DuplicateDropped { sequence: u64 },
    Acknowledged { sequence: u64 },
    KeepaliveAck,
    TransportFault(SessionError),
    SessionReset { full: bool },
    Retry { sequence: u64 },
    RetryGlobal { sequence: u64 },
    Wait,
    ReconnectOk { sequence: u64 },
    CredentialRenewal,
    CredentialRenewalCompleted,
    EventsDropped { count: u64 },
}

#[derive(Clone, Copy, Debug, PartialEq, Eq, Structural)]
pub enum RenewalState {
    Idle,
    Draining,
    Reconnecting,
}

#[derive(Clone, Copy, Debug, PartialEq, Eq, Structural)]
pub enum RenewalPending {
    No,
    Yes,
}

#[derive(Clone, Copy, Debug, PartialEq, Eq, Structural)]
pub enum CredentialChange {
    Unknown,
    Unchanged,
    Changed,
}

pub struct ConfigView {
    pub limits: Limits,
    pub max_queued_messages: usize,
    pub max_retained_bytes: u64,
    pub max_in_flight_transactions: usize,
    pub max_reconnect_attempts: usize,
    pub max_handshake_transitions: usize,
    pub reconnect_policy: ReconnectPolicy,
    pub client_ident: ClientIdentView,
    pub client_cookie: u64,
    pub server_cookie: u64,
    pub global_sequence: u64,
    pub connect_sequence: u64,
    pub replacement_cookies: Seq<u64>,
}

pub enum InputView {
    Start { ready: bool },
    InitialConnection {
        authenticated_global_id: Option<u64>,
        credential_identity: Option<Seq<u8>>,
    },
    InitialIdentity {
        generation: u64,
        authenticated_global_id: Option<u64>,
        credential_identity: Option<Seq<u8>>,
    },
    Admit { request_id: u64, message: MessageView, one_way: bool },
    Cancel { request_id: u64 },
    Dispatch,
    WriteComplete { generation: u64, request_id: Option<u64>, result: Result<(), SessionError> },
    Connected {
        generation: u64,
        authenticated_global_id: Option<u64>,
        credential_identity: Option<Seq<u8>>,
    },
    ConnectFailed { generation: u64 },
    Control { generation: u64, control: ControlView },
    Message { generation: u64, message: MessageView },
    Fault { generation: u64, error: SessionError },
    RenewalDue { generation: u64 },
    ConsumeIncoming,
    Stop,
}

pub enum EffectView {
    Connect { generation: u64 },
    CloseTransport { generation: u64 },
    SendControl { generation: u64, control: ControlView },
    SendMessage { generation: u64, request_id: u64, message: MessageView },
    Admitted { request_id: u64, transaction_id: u64 },
    Completed { request_id: u64, reply: Option<MessageView> },
    Failed { request_id: u64, error: SessionError },
    Incoming(MessageView),
    Event(Event),
    Terminal(SessionError),
}

/// A request that has not been answered. It has a sequence number once it was sent.
pub struct PendingView {
    pub request_id: u64,
    pub message: MessageView,
    pub bytes: u64,
    pub sequence: u64,
    pub sent: bool,
    pub may_have_executed: bool,
    pub one_way: bool,
}

/// The requests of a session: in the order in which they came, by transaction, and those to send
/// again after a reconnect.
#[verifier::ext_equal]
pub struct Book {
    pub pending: Seq<PendingView>,
    pub by_transaction: Map<u64, u64>,
    pub replay: Seq<u64>,
    pub retained_bytes: u64,
}

#[verifier::ext_equal]
pub struct MachineView {
    pub config: ConfigView,
    pub state: State,
    pub generation: u64,
    pub book: Book,
    pub controls: Seq<ControlView>,
    pub incoming_count: usize,
    pub write_busy: bool,
    pub next_outbound: Option<u64>,
    pub last_inbound: u64,
    pub next_transaction_id: Option<u64>,
    pub client_cookie: u64,
    pub server_cookie: u64,
    pub server_global_id: i64,
    pub server_addresses: Seq<AddressView>,
    pub server_features: u64,
    pub global_sequence: u64,
    pub connect_sequence: u64,
    pub authenticated_global_id: u64,
    pub credential_identity: Option<Seq<u8>>,
    pub candidate_credential_identity: Option<Seq<u8>>,
    pub credential_change: CredentialChange,
    pub renewal: RenewalState,
    pub renewal_pending: RenewalPending,
    pub server_flags: u64,
    pub connected_once: bool,
    pub reconnect_attempts: usize,
    pub transitions: usize,
    pub connect_pending: bool,
    pub terminal_error: Option<SessionError>,
    pub replacement_cookies: Seq<u64>,
}

/// A session, and the effects that it has asked for.
#[verifier::ext_equal]
pub struct Trace {
    pub m: MachineView,
    pub out: Seq<EffectView>,
}

pub open spec fn emit(t: Trace, effect: EffectView) -> Trace {
    Trace { out: t.out.push(effect), ..t }
}

pub open spec fn note(t: Trace, event: Event) -> Trace {
    emit(t, EffectView::Event(event))
}

pub open spec fn max_u64(a: u64, b: u64) -> u64 {
    if a > b {
        a
    } else {
        b
    }
}

// ---------------------------------------------------------------------------
// Requests
// ---------------------------------------------------------------------------

/// Where the request with this id stands.
pub open spec fn index_of(pending: Seq<PendingView>, request_id: u64) -> Option<int>
    decreases pending.len(),
{
    if pending.len() == 0 {
        None
    } else {
        match index_of(pending.drop_last(), request_id) {
            Some(i) => Some(i),
            None => if pending.last().request_id == request_id {
                Some(pending.len() - 1)
            } else {
                None
            },
        }
    }
}

pub open spec fn find(pending: Seq<PendingView>, request_id: u64) -> Option<PendingView> {
    match index_of(pending, request_id) {
        Some(i) => Some(pending[i]),
        None => None,
    }
}

/// The number of requests that are on the way.
pub open spec fn sent_count(pending: Seq<PendingView>) -> nat
    decreases pending.len(),
{
    if pending.len() == 0 {
        0
    } else {
        sent_count(pending.drop_last()) + if pending.last().sent {
            1nat
        } else {
            0
        }
    }
}

/// The first request that is not on the way.
pub open spec fn first_unsent(pending: Seq<PendingView>) -> Option<int>
    decreases pending.len(),
{
    if pending.len() == 0 {
        None
    } else {
        match first_unsent(pending.drop_last()) {
            Some(i) => Some(i),
            None => if pending.last().sent {
                None
            } else {
                Some(pending.len() - 1)
            },
        }
    }
}

/// The ids of the requests that are on the way.
pub open spec fn sent_ids(pending: Seq<PendingView>) -> Seq<u64>
    decreases pending.len(),
{
    if pending.len() == 0 {
        Seq::empty()
    } else if pending.last().sent {
        sent_ids(pending.drop_last()).push(pending.last().request_id)
    } else {
        sent_ids(pending.drop_last())
    }
}

/// `ids` without `request_id`.
pub open spec fn without(ids: Seq<u64>, request_id: u64) -> Seq<u64>
    decreases ids.len(),
{
    if ids.len() == 0 {
        Seq::empty()
    } else if ids.last() == request_id {
        without(ids.drop_last(), request_id)
    } else {
        without(ids.drop_last(), request_id).push(ids.last())
    }
}

/// Whether a request is still to be acknowledged beyond `sequence`.
pub open spec fn beyond(pending: Seq<PendingView>, request_id: u64, sequence: u64) -> bool {
    match find(pending, request_id) {
        Some(p) => p.sequence > sequence,
        None => false,
    }
}

/// The requests to send again whose sequence numbers are beyond `sequence`.
pub open spec fn trimmed(replay: Seq<u64>, pending: Seq<PendingView>, sequence: u64) -> Seq<u64>
    decreases replay.len(),
{
    if replay.len() == 0 {
        Seq::empty()
    } else if beyond(pending, replay.last(), sequence) {
        trimmed(replay.drop_last(), pending, sequence).push(replay.last())
    } else {
        trimmed(replay.drop_last(), pending, sequence)
    }
}

/// The bytes that requests hold.
pub open spec fn held_bytes(pending: Seq<PendingView>) -> nat
    decreases pending.len(),
{
    if pending.len() == 0 {
        0
    } else {
        held_bytes(pending.drop_last()) + pending.last().bytes as nat
    }
}

pub open spec fn no_requests() -> Book {
    Book {
        pending: Seq::empty(),
        by_transaction: Map::empty(),
        replay: Seq::empty(),
        retained_bytes: 0,
    }
}

/// A book without the request with this id.
#[verifier::opaque]
pub open spec fn removed(b: Book, request_id: u64) -> Book {
    match index_of(b.pending, request_id) {
        None => b,
        Some(i) => Book {
            pending: b.pending.remove(i),
            by_transaction: b.by_transaction.remove(b.pending[i].message.header.transaction_id),
            replay: without(b.replay, request_id),
            retained_bytes: (b.retained_bytes - b.pending[i].bytes) as u64,
        },
    }
}

/// A book whose requests to send again are not on the way.
#[verifier::opaque]
pub open spec fn replayed(b: Book) -> Book {
    Book {
        pending: Seq::new(
            b.pending.len(),
            |i: int|
                PendingView {
                    sent: b.pending[i].sent && !b.replay.contains(b.pending[i].request_id),
                    ..b.pending[i]
                },
        ),
        ..b
    }
}

/// A request that fails without an answer, as its submitter learns it: where it may have been
/// carried out, its outcome is unknown.
pub open spec fn failure(p: PendingView, error: SessionError) -> EffectView {
    EffectView::Failed {
        request_id: p.request_id,
        error: if p.may_have_executed {
            SessionError::OutcomeUnknown
        } else {
            error
        },
    }
}

pub open spec fn failures(pending: Seq<PendingView>, error: SessionError) -> Seq<EffectView> {
    Seq::new(pending.len(), |i: int| failure(pending[i], error))
}

/// All requests fail.
#[verifier::opaque]
pub open spec fn fail_all(t: Trace, error: SessionError) -> Trace {
    Trace {
        m: MachineView { book: no_requests(), ..t.m },
        out: t.out + failures(t.m.book.pending, error),
    }
}

/// The requests with these ids fail one after the other, their outcomes unknown.
pub open spec fn fail_ids(t: Trace, ids: Seq<u64>) -> Trace
    decreases ids.len(),
{
    if ids.len() == 0 {
        t
    } else {
        let before = fail_ids(t, ids.drop_last());
        emit(
            Trace {
                m: MachineView { book: removed(before.m.book, ids.last()), ..before.m },
                ..before
            },
            EffectView::Failed { request_id: ids.last(), error: SessionError::OutcomeUnknown },
        )
    }
}

/// The requests that are on the way fail, their outcomes unknown, and none is to be sent again.
#[verifier::opaque]
pub open spec fn fail_sent(t: Trace) -> Trace {
    let after = fail_ids(t, sent_ids(t.m.book.pending));
    Trace {
        m: MachineView { book: Book { replay: Seq::empty(), ..after.m.book }, ..after.m },
        ..after
    }
}

// ---------------------------------------------------------------------------
// Faults and reconnects
// ---------------------------------------------------------------------------

#[verifier::opaque]
pub open spec fn set_state(t: Trace, state: State) -> Trace {
    if t.m.state != state {
        note(Trace { m: MachineView { state, ..t.m }, ..t }, Event::StateChanged(state))
    } else {
        t
    }
}

/// The session ends with `error`, unless it has ended.
#[verifier::opaque]
pub open spec fn fail_terminal(t: Trace, error: SessionError) -> Trace {
    if t.m.terminal_error is Some {
        t
    } else {
        let marked = note(
            emit(
                Trace { m: MachineView { terminal_error: Some(error), ..t.m }, ..t },
                EffectView::Terminal(error),
            ),
            Event::TransportFault(error),
        );
        let quiet = emit(
            Trace {
                m: MachineView {
                    write_busy: false,
                    controls: Seq::empty(),
                    connect_pending: false,
                    ..marked.m
                },
                ..marked
            },
            EffectView::CloseTransport { generation: t.m.generation },
        );
        set_state(fail_all(quiet, error), State::Disconnected)
    }
}

/// Asks for a new connection, as long as attempts are left.
#[verifier::opaque]
pub open spec fn begin_reconnect(t: Trace) -> Trace {
    if t.m.config.max_reconnect_attempts == 0 || t.m.reconnect_attempts
        >= t.m.config.max_reconnect_attempts {
        fail_terminal(t, SessionError::ReconnectExhausted)
    } else {
        let trying = Trace {
            m: MachineView {
                reconnect_attempts: (t.m.reconnect_attempts + 1) as usize,
                connect_pending: true,
                ..t.m
            },
            ..t
        };
        if t.m.generation == u64::MAX {
            fail_terminal(trying, SessionError::TransitionLimit)
        } else {
            let generation = (t.m.generation + 1) as u64;
            emit(
                Trace { m: MachineView { generation, ..trying.m }, ..trying },
                EffectView::Connect { generation },
            )
        }
    }
}

/// The peer forgets this session: sequence numbers start again and all requests fail.
#[verifier::opaque]
pub open spec fn reset_identity(t: Trace) -> Trace {
    fail_all(
        Trace {
            m: MachineView {
                server_cookie: 0,
                server_flags: 0,
                connect_sequence: 0,
                last_inbound: 0,
                next_outbound: Some(1),
                next_transaction_id: Some(1),
                ..t.m
            },
            ..t
        },
        SessionError::Disconnected,
    )
}

pub open spec fn prepare_replay(t: Trace) -> Trace {
    Trace { m: MachineView { book: replayed(t.m.book), ..t.m }, ..t }
}

/// What becomes of the requests of a connection that failed.
#[verifier::opaque]
pub open spec fn after_fault(t: Trace) -> Trace {
    if t.m.server_flags & CONNECTION_FLAG_LOSSY != 0 {
        reset_identity(fail_sent(t))
    } else if t.m.config.reconnect_policy == ReconnectPolicy::FailPending {
        fail_all(t, SessionError::Disconnected)
    } else if t.m.server_cookie == 0 {
        fail_sent(t)
    } else {
        prepare_replay(t)
    }
}

/// The connection failed.
#[verifier::opaque]
pub open spec fn fault(t: Trace, error: SessionError) -> Trace {
    if t.m.terminal_error is Some || t.m.state == State::Stopped || (t.m.state
        == State::Disconnected && t.m.connect_pending) {
        t
    } else {
        let closed = emit(
            note(t, Event::TransportFault(error)),
            EffectView::CloseTransport { generation: t.m.generation },
        );
        let quiet = Trace {
            m: MachineView { write_busy: false, controls: Seq::empty(), ..closed.m },
            ..closed
        };
        begin_reconnect(set_state(after_fault(quiet), State::Disconnected))
    }
}

/// A connection stands. Whether its generation could be counted is the second part.
#[verifier::opaque]
pub open spec fn start_transport(t: Trace, state: State) -> (Trace, bool) {
    if t.m.generation == u64::MAX {
        (fail_terminal(t, SessionError::TransitionLimit), false)
    } else {
        (
            set_state(
                Trace {
                    m: MachineView { generation: (t.m.generation + 1) as u64, ..t.m },
                    ..t
                },
                state,
            ),
            true,
        )
    }
}

#[verifier::opaque]
pub open spec fn queue_control(t: Trace, control: ControlView) -> Trace {
    if t.m.controls.len() >= t.m.config.max_queued_messages {
        fault(t, SessionError::QueueSaturated)
    } else {
        Trace { m: MachineView { controls: t.m.controls.push(control), ..t.m }, ..t }
    }
}

/// The identification that a session sends first.
pub open spec fn client_ident(m: MachineView) -> ControlView {
    ControlView::ClientIdent(
        ClientIdentView {
            cookie: m.client_cookie,
            global_sequence: m.global_sequence,
            ..m.config.client_ident
        },
    )
}

/// The request to resume a session.
pub open spec fn reconnect_request(m: MachineView) -> ControlView {
    ControlView::SessionReconnect(
        SessionReconnectView {
            addresses: m.config.client_ident.addresses,
            client_cookie: m.client_cookie,
            server_cookie: m.server_cookie,
            global_sequence: m.global_sequence,
            connect_sequence: m.connect_sequence,
            message_sequence: m.last_inbound,
        },
    )
}

pub open spec fn queue_client_ident(t: Trace) -> Trace {
    queue_control(t, client_ident(t.m))
}

pub open spec fn queue_reconnect(t: Trace) -> Trace {
    queue_control(
        Trace { m: MachineView { controls: Seq::empty(), ..t.m }, ..t },
        reconnect_request(t.m),
    )
}

/// The next cookie takes the place of the client's.
#[verifier::opaque]
pub open spec fn refresh_cookie(t: Trace) -> (Trace, bool) {
    if t.m.replacement_cookies.len() == 0 {
        (fail_terminal(t, SessionError::Disconnected), false)
    } else {
        let cookie = t.m.replacement_cookies[0];
        let taken = Trace {
            m: MachineView {
                replacement_cookies: t.m.replacement_cookies.skip(1),
                ..t.m
            },
            ..t
        };
        if cookie == 0 {
            (fail_terminal(taken, SessionError::Malformed), false)
        } else {
            (
                Trace { m: MachineView { client_cookie: cookie, ..taken.m }, ..taken },
                true,
            )
        }
    }
}

// ---------------------------------------------------------------------------
// Inputs
// ---------------------------------------------------------------------------

#[verifier::opaque]
pub open spec fn require_ready(t: Trace) -> (Trace, bool) {
    if t.m.state == State::Ready {
        (t, true)
    } else {
        (fault(t, SessionError::Malformed), false)
    }
}

pub open spec fn count_up(n: usize) -> usize {
    if n == usize::MAX {
        n
    } else {
        (n + 1) as usize
    }
}

pub open spec fn counted(t: Trace) -> Trace {
    Trace { m: MachineView { transitions: count_up(t.m.transitions), ..t.m }, ..t }
}

/// A step of the handshake, which is allowed in one state and only so many times.
#[verifier::opaque]
pub open spec fn transition_allowed(t: Trace, expected: State) -> (Trace, bool) {
    if t.m.state != expected {
        (fault(t, SessionError::Malformed), false)
    } else if counted(t).m.transitions > t.m.config.max_handshake_transitions {
        (fault(counted(t), SessionError::TransitionLimit), false)
    } else {
        (counted(t), true)
    }
}

/// A peer can only acknowledge what was sent.
#[verifier::opaque]
pub open spec fn accept_acknowledgment(t: Trace, sequence: u64) -> (Trace, bool) {
    if t.m.next_outbound is Some && sequence != 0 && sequence >= t.m.next_outbound->Some_0 {
        (fault(t, SessionError::Malformed), false)
    } else {
        (t, true)
    }
}

pub open spec fn trim_replay(t: Trace, sequence: u64) -> Trace {
    Trace {
        m: MachineView {
            book: Book {
                replay: trimmed(t.m.book.replay, t.m.book.pending, sequence),
                ..t.m.book
            },
            ..t.m
        },
        ..t
    }
}

/// The end of a handshake: where credentials are being renewed, they must have changed.
#[verifier::opaque]
pub open spec fn complete_renewal(t: Trace) -> (Trace, bool) {
    if t.m.renewal != RenewalState::Reconnecting {
        (t, true)
    } else if t.m.credential_change == CredentialChange::Changed {
        let taken = MachineView {
            credential_identity: t.m.candidate_credential_identity,
            candidate_credential_identity: None,
            credential_change: CredentialChange::Unknown,
            ..t.m
        };
        if t.m.renewal_pending == RenewalPending::Yes {
            (
                note(
                    note(
                        Trace {
                            m: MachineView {
                                renewal: RenewalState::Draining,
                                renewal_pending: RenewalPending::No,
                                ..taken
                            },
                            ..t
                        },
                        Event::CredentialRenewal,
                    ),
                    Event::CredentialRenewalCompleted,
                ),
                true,
            )
        } else {
            (
                note(
                    Trace { m: MachineView { renewal: RenewalState::Idle, ..taken }, ..t },
                    Event::CredentialRenewalCompleted,
                ),
                true,
            )
        }
    } else {
        (fault(t, SessionError::Renewal), false)
    }
}

/// The peer asks to start the session again, `full`y or with the requests that were sent.
#[verifier::opaque]
pub open spec fn reset(t: Trace, full: bool) -> Trace {
    let told = note(t, Event::SessionReset { full });
    let cleared = Trace {
        m: MachineView {
            server_cookie: 0,
            server_flags: 0,
            connect_sequence: 0,
            last_inbound: 0,
            ..told.m
        },
        ..told
    };
    if full {
        let (fresh, ok) = refresh_cookie(cleared);
        if !ok {
            fresh
        } else {
            let renumbered = Trace {
                m: MachineView {
                    next_outbound: Some(1),
                    next_transaction_id: Some(1),
                    ..fresh.m
                },
                ..fresh
            };
            queue_client_ident(
                set_state(fail_all(renumbered, SessionError::Disconnected), State::Connecting),
            )
        }
    } else {
        queue_client_ident(set_state(prepare_replay(cleared), State::Connecting))
    }
}

#[verifier::opaque]
pub open spec fn start(t: Trace, ready: bool) -> Trace {
    if t.m.state != State::Disconnected || t.m.connect_pending || t.m.terminal_error is Some {
        t
    } else if ready {
        start_transport(
            Trace { m: MachineView { connected_once: true, ..t.m }, ..t },
            State::Ready,
        ).0
    } else {
        begin_reconnect(t)
    }
}

/// The bytes that a message holds while it waits, if every frame that carries it is within the
/// limits.
#[verifier::opaque]
pub open spec fn admission(limits: Limits, m: MessageView) -> Result<u64, SessionError> {
    if m.front.len() > u32::MAX || m.middle.len() > u32::MAX || m.data.len() > u32::MAX {
        Err(SessionError::Malformed)
    } else if !lengths_agree(m) || m.front.len() > limits.max_segment_bytes || m.middle.len()
        > limits.max_segment_bytes || m.data.len() > limits.max_segment_bytes {
        Err(SessionError::Malformed)
    } else {
        match message_encoding(m, limits) {
            Err(error) => Err(SessionError::Frame(error)),
            Ok(frame) => if crc_encoding(true, frame, limits) is Err || frame_fault(
                frame,
                limits,
            ) is Some {
                Err(SessionError::Malformed)
            } else {
                Ok(
                    (MESSAGE_HEADER_SIZE + m.front.len() + m.middle.len() + m.data.len()) as u64,
                )
            },
        }
    }
}

/// The first transaction id from `from` on that no request has.
pub open spec fn free_id(taken: Map<u64, u64>, from: u64) -> Option<u64>
    decreases u64::MAX - from,
{
    if !taken.contains_key(from) {
        Some(from)
    } else if from == u64::MAX {
        None
    } else {
        free_id(taken, (from + 1) as u64)
    }
}

/// The transaction id of the next request that brings none.
pub open spec fn next_id(m: MachineView) -> Option<u64> {
    match m.next_transaction_id {
        None => None,
        Some(next) => free_id(m.book.by_transaction, max_u64(next, 1)),
    }
}

pub open spec fn after_id(id: Option<u64>) -> Option<u64> {
    match id {
        None => None,
        Some(id) => if id == u64::MAX {
            None
        } else {
            Some((id + 1) as u64)
        },
    }
}

/// A request is accepted under a transaction id.
pub open spec fn accepted(
    t: Trace,
    request_id: u64,
    message: MessageView,
    bytes: u64,
    one_way: bool,
    transaction_id: u64,
) -> Trace {
    let p = PendingView {
        request_id,
        message: MessageView {
            header: MessageHeader { transaction_id, ..message.header },
            ..message
        },
        bytes,
        sequence: 0,
        sent: false,
        may_have_executed: false,
        one_way,
    };
    emit(
        Trace {
            m: MachineView {
                book: Book {
                    pending: t.m.book.pending.push(p),
                    by_transaction: t.m.book.by_transaction.insert(transaction_id, request_id),
                    retained_bytes: (t.m.book.retained_bytes + bytes) as u64,
                    ..t.m.book
                },
                ..t.m
            },
            ..t
        },
        EffectView::Admitted { request_id, transaction_id },
    )
}

/// Whether there is no room for a request of this many bytes with this id.
pub open spec fn saturated(m: MachineView, request_id: u64, bytes: u64) -> bool {
    ||| m.book.pending.len() >= m.config.max_queued_messages
    ||| m.book.retained_bytes + bytes > m.config.max_retained_bytes
    ||| find(m.book.pending, request_id) is Some
}

pub open spec fn refused(t: Trace, request_id: u64, error: SessionError) -> Trace {
    emit(t, EffectView::Failed { request_id, error })
}

/// A request comes in.
#[verifier::opaque]
pub open spec fn take_in(t: Trace, request_id: u64, message: MessageView, one_way: bool) -> Trace {
    let admissible = admission(t.m.config.limits, message);
    if t.m.terminal_error is Some {
        refused(t, request_id, t.m.terminal_error->Some_0)
    } else if t.m.state == State::Stopped {
        refused(t, request_id, SessionError::Closed)
    } else if admissible is Err {
        refused(t, request_id, SessionError::Malformed)
    } else if saturated(t.m, request_id, admissible->Ok_0) {
        refused(t, request_id, SessionError::QueueSaturated)
    } else if message.header.transaction_id == 0 {
        let id = next_id(t.m);
        let numbered = Trace {
            m: MachineView { next_transaction_id: after_id(id), ..t.m },
            ..t
        };
        match id {
            None => refused(
                fail_terminal(numbered, SessionError::TransitionLimit),
                request_id,
                SessionError::TransitionLimit,
            ),
            Some(id) => accepted(numbered, request_id, message, admissible->Ok_0, one_way, id),
        }
    } else if t.m.book.by_transaction.contains_key(message.header.transaction_id) {
        refused(t, request_id, SessionError::Malformed)
    } else {
        accepted(
            t,
            request_id,
            message,
            admissible->Ok_0,
            one_way,
            message.header.transaction_id,
        )
    }
}

pub open spec fn remove_request(t: Trace, request_id: u64) -> Trace {
    Trace { m: MachineView { book: removed(t.m.book, request_id), ..t.m }, ..t }
}

/// A request is withdrawn. Where it may have been carried out, its outcome is unknown.
#[verifier::opaque]
pub open spec fn cancel(t: Trace, request_id: u64) -> Trace {
    match find(t.m.book.pending, request_id) {
        None => t,
        Some(p) => emit(remove_request(t, request_id), failure(p, SessionError::Cancelled)),
    }
}

/// The request at `index` is sent with this sequence number.
pub open spec fn sent(t: Trace, index: int, sequence: u64) -> Trace {
    let p = t.m.book.pending[index];
    let message = MessageView {
        header: MessageHeader { sequence, ..p.message.header },
        ..p.message
    };
    let marked = PendingView {
        message,
        sequence,
        sent: true,
        may_have_executed: true,
        ..p
    };
    emit(
        Trace {
            m: MachineView {
                book: Book {
                    pending: t.m.book.pending.update(index, marked),
                    replay: if t.m.book.replay.contains(p.request_id) {
                        t.m.book.replay
                    } else {
                        t.m.book.replay.push(p.request_id)
                    },
                    ..t.m.book
                },
                write_busy: true,
                ..t.m
            },
            ..t
        },
        EffectView::SendMessage { generation: t.m.generation, request_id: p.request_id, message },
    )
}

/// The request at `index` is sent again as it was sent before.
pub open spec fn resent(t: Trace, index: int) -> Trace {
    let p = t.m.book.pending[index];
    let marked = PendingView { sent: true, may_have_executed: true, ..p };
    emit(
        Trace {
            m: MachineView {
                book: Book {
                    pending: t.m.book.pending.update(index, marked),
                    replay: if t.m.book.replay.contains(p.request_id) {
                        t.m.book.replay
                    } else {
                        t.m.book.replay.push(p.request_id)
                    },
                    ..t.m.book
                },
                write_busy: true,
                ..t.m
            },
            ..t
        },
        EffectView::SendMessage {
            generation: t.m.generation,
            request_id: p.request_id,
            message: p.message,
        },
    )
}

/// The next write: controls first, then requests in the order in which they came.
#[verifier::opaque]
pub open spec fn dispatch(t: Trace) -> Trace {
    if t.m.write_busy || t.m.state == State::Disconnected || t.m.state == State::Wait || t.m.state
        == State::Stopped {
        t
    } else if t.m.controls.len() > 0 {
        emit(
            Trace {
                m: MachineView { controls: t.m.controls.skip(1), write_busy: true, ..t.m },
                ..t
            },
            EffectView::SendControl { generation: t.m.generation, control: t.m.controls[0] },
        )
    } else if t.m.state != State::Ready || sent_count(t.m.book.pending)
        >= t.m.config.max_in_flight_transactions {
        t
    } else if t.m.renewal == RenewalState::Draining {
        if sent_count(t.m.book.pending) == 0 {
            fault(
                Trace { m: MachineView { renewal: RenewalState::Reconnecting, ..t.m }, ..t },
                SessionError::Renewal,
            )
        } else {
            t
        }
    } else {
        match first_unsent(t.m.book.pending) {
            None => t,
            Some(index) => if t.m.book.pending[index].sequence != 0 {
                resent(t, index)
            } else {
                match t.m.next_outbound {
                    None => fail_terminal(t, SessionError::TransitionLimit),
                    Some(next) => {
                        let sequence = max_u64(next, 1);
                        sent(
                            Trace {
                                m: MachineView {
                                    next_outbound: after_id(Some(sequence)),
                                    ..t.m
                                },
                                ..t
                            },
                            index,
                            sequence,
                        )
                    },
                }
            },
        }
    }
}

/// What a new connection says of the credential.
pub open spec fn credential_seen(m: MachineView, identity: Option<Seq<u8>>) -> MachineView {
    match identity {
        Some(seen) => if m.credential_identity == Some(seen) {
            MachineView { credential_change: CredentialChange::Unchanged, ..m }
        } else {
            MachineView {
                candidate_credential_identity: Some(seen),
                credential_change: CredentialChange::Changed,
                ..m
            }
        },
        None => MachineView {
            candidate_credential_identity: None,
            credential_change: CredentialChange::Unknown,
            ..m
        },
    }
}

pub open spec fn closing(t: Trace, generation: u64) -> Trace {
    emit(t, EffectView::CloseTransport { generation })
}

/// The second half of `connected`: the handshake of a resumed or of a new session begins.
#[verifier::opaque]
pub open spec fn begin_handshake(t: Trace, generation: u64) -> Trace {
    if t.m.server_cookie != 0 {
        if t.m.connect_sequence == u64::MAX {
            closing(fail_terminal(t, SessionError::TransitionLimit), generation)
        } else {
            let (up, ok) = start_transport(
                Trace {
                    m: MachineView {
                        connect_sequence: (t.m.connect_sequence + 1) as u64,
                        ..t.m
                    },
                    ..t
                },
                State::Reconnecting,
            );
            if !ok {
                closing(up, generation)
            } else {
                queue_reconnect(up)
            }
        }
    } else {
        let (fresh, refreshed) = refresh_cookie(t);
        if !refreshed {
            closing(fresh, generation)
        } else {
            let (up, ok) = start_transport(
                Trace { m: MachineView { connect_sequence: 0, ..fresh.m }, ..fresh },
                State::Connecting,
            );
            if !ok {
                closing(up, generation)
            } else {
                queue_client_ident(up)
            }
        }
    }
}

/// The authenticated identity of a connection; a different one than before resets the session.
/// The second part is false where the identity is not acceptable.
#[verifier::opaque]
pub open spec fn identified(t: Trace, global_id: Option<u64>) -> (Trace, bool) {
    match global_id {
        None => (t, true),
        Some(id) => {
            let changed = t.m.authenticated_global_id != 0 && t.m.authenticated_global_id != id;
            let known = Trace { m: MachineView { authenticated_global_id: id, ..t.m }, ..t };
            if id > i64::MAX {
                (fail_terminal(known, SessionError::Malformed), false)
            } else {
                let named = Trace {
                    m: MachineView {
                        config: ConfigView {
                            client_ident: ClientIdentView {
                                global_id: id as i64,
                                ..known.m.config.client_ident
                            },
                            ..known.m.config
                        },
                        ..known.m
                    },
                    ..known
                };
                (
                    if changed {
                        reset_identity(named)
                    } else {
                        named
                    },
                    true,
                )
            }
        },
    }
}

/// A connection was made.
#[verifier::opaque]
pub open spec fn connected(
    t: Trace,
    generation: u64,
    global_id: Option<u64>,
    identity: Option<Seq<u8>>,
) -> Trace {
    if generation != t.m.generation || !t.m.connect_pending {
        closing(t, generation)
    } else {
        let met = Trace {
            m: MachineView {
                connect_pending: false,
                terminal_error: None,
                transitions: 0,
                ..t.m
            },
            ..t
        };
        if met.m.connected_once && met.m.global_sequence == u64::MAX {
            closing(fail_terminal(met, SessionError::TransitionLimit), generation)
        } else {
            let again = Trace {
                m: MachineView {
                    global_sequence: if met.m.connected_once {
                        (met.m.global_sequence + 1) as u64
                    } else {
                        met.m.global_sequence
                    },
                    connected_once: true,
                    ..met.m
                },
                ..met
            };
            let (known, ok) = identified(again, global_id);
            if !ok {
                closing(known, generation)
            } else {
                begin_handshake(
                    Trace { m: credential_seen(known.m, identity), ..known },
                    generation,
                )
            }
        }
    }
}

/// The request that a message answers: it was sent, and is still waiting.
pub open spec fn answered(b: Book, transaction_id: u64) -> Option<u64> {
    if b.by_transaction.contains_key(transaction_id) {
        let request_id = b.by_transaction[transaction_id];
        match find(b.pending, request_id) {
            Some(p) => if p.may_have_executed {
                Some(request_id)
            } else {
                None
            },
            None => None,
        }
    } else {
        None
    }
}

/// A message that is new goes to the request that it answers, or to the session's owner.
#[verifier::opaque]
pub open spec fn deliver(t: Trace, message: MessageView) -> Trace {
    match answered(t.m.book, message.header.transaction_id) {
        Some(request_id) => emit(
            remove_request(t, request_id),
            EffectView::Completed { request_id, reply: Some(message) },
        ),
        None => if t.m.incoming_count >= t.m.config.max_queued_messages {
            fail_terminal(t, SessionError::QueueSaturated)
        } else {
            emit(
                Trace {
                    m: MachineView {
                        incoming_count: (t.m.incoming_count + 1) as usize,
                        ..t.m
                    },
                    ..t
                },
                EffectView::Incoming(message),
            )
        },
    }
}

/// A message arrived.
#[verifier::opaque]
pub open spec fn receive(t: Trace, message: MessageView) -> Trace {
    let sequence = message.header.sequence;
    if t.m.state != State::Ready {
        fault(t, SessionError::Malformed)
    } else {
        let (checked, ok) = accept_acknowledgment(t, message.header.ack_sequence);
        if !ok {
            checked
        } else if sequence <= checked.m.last_inbound {
            note(checked, Event::DuplicateDropped { sequence })
        } else {
            let expected = checked.m.last_inbound + 1;
            let told = if sequence != expected {
                note(checked, Event::SequenceGap { sequence, expected: expected as u64 })
            } else {
                checked
            };
            let seen = trim_replay(
                Trace { m: MachineView { last_inbound: sequence, ..told.m }, ..told },
                message.header.ack_sequence,
            );
            deliver(queue_control(seen, ControlView::Ack(sequence)), message)
        }
    }
}

/// The peer introduces itself.
#[verifier::opaque]
pub open spec fn server_ident(t: Trace, ident: ServerIdentView) -> Trace {
    let known = counted(t);
    let own = t.m.config.client_ident;
    if t.m.state != State::Connecting {
        fault(t, SessionError::Malformed)
    } else if known.m.transitions > t.m.config.max_handshake_transitions {
        fault(known, SessionError::TransitionLimit)
    } else if ident.required_features & !own.supported_features != 0 || own.required_features
        & !ident.supported_features != 0 {
        fail_terminal(known, SessionError::UnsupportedFeature)
    } else if !(exists|i: int|
        0 <= i < ident.addresses.len() && same_endpoint(
            #[trigger] ident.addresses[i],
            own.target_address,
        )) {
        fault(known, SessionError::Malformed)
    } else {
        let named = Trace {
            m: MachineView {
                server_cookie: ident.cookie,
                server_global_id: ident.global_id,
                server_addresses: ident.addresses,
                server_features: ident.supported_features,
                server_flags: ident.flags,
                ..known.m
            },
            ..known
        };
        let (renewed, ok) = complete_renewal(fail_sent(named));
        if ok {
            set_state(
                Trace { m: MachineView { reconnect_attempts: 0, ..renewed.m }, ..renewed },
                State::Ready,
            )
        } else {
            renewed
        }
    }
}

#[verifier::opaque]
pub open spec fn retry(t: Trace, connect_sequence: u64) -> Trace {
    let (allowed, ok) = transition_allowed(t, State::Reconnecting);
    if !ok {
        allowed
    } else if connect_sequence == u64::MAX {
        fail_terminal(allowed, SessionError::TransitionLimit)
    } else {
        let next = (connect_sequence + 1) as u64;
        queue_reconnect(
            note(
                Trace { m: MachineView { connect_sequence: next, ..allowed.m }, ..allowed },
                Event::Retry { sequence: next },
            ),
        )
    }
}

#[verifier::opaque]
pub open spec fn retry_global(t: Trace, global_sequence: u64) -> Trace {
    let (allowed, ok) = transition_allowed(t, State::Reconnecting);
    let highest = max_u64(allowed.m.global_sequence, global_sequence);
    if !ok {
        allowed
    } else if highest == u64::MAX {
        fail_terminal(allowed, SessionError::TransitionLimit)
    } else {
        let next = (highest + 1) as u64;
        queue_reconnect(
            note(
                Trace { m: MachineView { global_sequence: next, ..allowed.m }, ..allowed },
                Event::RetryGlobal { sequence: next },
            ),
        )
    }
}

#[verifier::opaque]
pub open spec fn wait(t: Trace) -> Trace {
    if t.m.state != State::Connecting && t.m.state != State::Reconnecting {
        fault(t, SessionError::Malformed)
    } else {
        fault(note(set_state(counted(t), State::Wait), Event::Wait), SessionError::Disconnected)
    }
}

/// The peer resumes the session.
#[verifier::opaque]
pub open spec fn reconnect_ok(t: Trace, message_sequence: u64) -> Trace {
    let (allowed, ok) = transition_allowed(t, State::Reconnecting);
    if !ok {
        allowed
    } else {
        let (checked, acceptable) = accept_acknowledgment(allowed, message_sequence);
        if !acceptable {
            checked
        } else {
            let (renewed, done) = complete_renewal(
                prepare_replay(trim_replay(checked, message_sequence)),
            );
            if done {
                note(
                    set_state(
                        Trace { m: MachineView { reconnect_attempts: 0, ..renewed.m }, ..renewed },
                        State::Ready,
                    ),
                    Event::ReconnectOk { sequence: message_sequence },
                )
            } else {
                renewed
            }
        }
    }
}

#[verifier::opaque]
pub open spec fn acknowledge(t: Trace, sequence: u64) -> Trace {
    let (ready, ok) = require_ready(t);
    if !ok {
        ready
    } else {
        let (checked, acceptable) = accept_acknowledgment(ready, sequence);
        if !acceptable {
            checked
        } else {
            note(trim_replay(checked, sequence), Event::Acknowledged { sequence })
        }
    }
}

/// A control payload arrived.
#[verifier::opaque]
pub open spec fn controlled(t: Trace, control: ControlView) -> Trace {
    match control {
        ControlView::Ack(sequence) => acknowledge(t, sequence),
        ControlView::Keepalive2(time) => {
            let (ready, ok) = require_ready(t);
            if ok {
                queue_control(ready, ControlView::Keepalive2Ack(time))
            } else {
                ready
            }
        },
        ControlView::Keepalive2Ack(_) => {
            let (ready, ok) = require_ready(t);
            if ok {
                note(ready, Event::KeepaliveAck)
            } else {
                ready
            }
        },
        ControlView::SessionReset(v) => {
            let (allowed, ok) = transition_allowed(t, State::Reconnecting);
            if ok {
                reset(allowed, v.full)
            } else {
                allowed
            }
        },
        ControlView::SessionRetry(v) => retry(t, v.connect_sequence),
        ControlView::SessionRetryGlobal(v) => retry_global(t, v.global_sequence),
        ControlView::Wait => wait(t),
        ControlView::SessionReconnectOk(v) => reconnect_ok(t, v.message_sequence),
        ControlView::ServerIdent(ident) => server_ident(t, ident),
        ControlView::IdentMissingFeatures(_) => fail_terminal(
            t,
            SessionError::UnsupportedPayload,
        ),
        _ => fault(t, SessionError::UnsupportedPayload),
    }
}

#[verifier::opaque]
pub open spec fn stop(t: Trace) -> Trace {
    if t.m.state == State::Stopped {
        t
    } else {
        let failed = fail_all(set_state(t, State::Stopped), SessionError::Closed);
        closing(
            Trace { m: MachineView { connect_pending: false, ..failed.m }, ..failed },
            t.m.generation,
        )
    }
}

#[verifier::opaque]
pub open spec fn renewal_due(t: Trace, generation: u64) -> Trace {
    if generation != t.m.generation {
        t
    } else if t.m.renewal == RenewalState::Idle {
        note(
            Trace { m: MachineView { renewal: RenewalState::Draining, ..t.m }, ..t },
            Event::CredentialRenewal,
        )
    } else {
        Trace { m: MachineView { renewal_pending: RenewalPending::Yes, ..t.m }, ..t }
    }
}

/// A write ended. A request that expects no answer is then complete.
#[verifier::opaque]
pub open spec fn written(
    t: Trace,
    generation: u64,
    request_id: Option<u64>,
    result: Result<(), SessionError>,
) -> Trace {
    if generation != t.m.generation {
        t
    } else {
        let free = Trace { m: MachineView { write_busy: false, ..t.m }, ..t };
        match result {
            Err(error) => fault(free, error),
            Ok(_) => match request_id {
                None => free,
                Some(id) => match find(free.m.book.pending, id) {
                    None => free,
                    Some(p) => if p.one_way {
                        emit(
                            remove_request(free, id),
                            EffectView::Completed { request_id: id, reply: None },
                        )
                    } else {
                        free
                    },
                },
            },
        }
    }
}

/// What an input does to a session, and the effects that it adds to those of `t`.
pub open spec fn next(t: Trace, input: InputView) -> Trace {
    match input {
        InputView::Start { ready } => start(t, ready),
        InputView::InitialConnection { authenticated_global_id, credential_identity } => {
            if t.m.state == State::Disconnected && !t.m.connect_pending {
                connected(
                    Trace { m: MachineView { connect_pending: true, ..t.m }, ..t },
                    t.m.generation,
                    authenticated_global_id,
                    credential_identity,
                )
            } else {
                t
            }
        },
        InputView::InitialIdentity { generation, authenticated_global_id, credential_identity } => {
            if generation == t.m.generation && t.m.state == State::Ready {
                Trace {
                    m: MachineView {
                        authenticated_global_id: match authenticated_global_id {
                            Some(id) => id,
                            None => t.m.authenticated_global_id,
                        },
                        credential_identity,
                        ..t.m
                    },
                    ..t
                }
            } else {
                t
            }
        },
        InputView::Admit { request_id, message, one_way } => take_in(
            t,
            request_id,
            message,
            one_way,
        ),
        InputView::Cancel { request_id } => cancel(t, request_id),
        InputView::Dispatch => dispatch(t),
        InputView::WriteComplete { generation, request_id, result } => written(
            t,
            generation,
            request_id,
            result,
        ),
        InputView::Connected { generation, authenticated_global_id, credential_identity } => {
            connected(t, generation, authenticated_global_id, credential_identity)
        },
        InputView::ConnectFailed { generation } => {
            if generation == t.m.generation && t.m.connect_pending {
                begin_reconnect(
                    note(
                        Trace { m: MachineView { connect_pending: false, ..t.m }, ..t },
                        Event::TransportFault(SessionError::Disconnected),
                    ),
                )
            } else {
                t
            }
        },
        InputView::Control { generation, control } => {
            if generation == t.m.generation {
                controlled(t, control)
            } else {
                t
            }
        },
        InputView::Message { generation, message } => {
            if generation == t.m.generation {
                receive(t, message)
            } else {
                t
            }
        },
        InputView::Fault { generation, error } => {
            if generation == t.m.generation {
                fault(t, error)
            } else {
                t
            }
        },
        InputView::RenewalDue { generation } => renewal_due(t, generation),
        InputView::ConsumeIncoming => Trace {
            m: MachineView {
                incoming_count: if t.m.incoming_count == 0 {
                    0
                } else {
                    (t.m.incoming_count - 1) as usize
                },
                ..t.m
            },
            ..t
        },
        InputView::Stop => stop(t),
    }
}

/// Whether a configuration leaves room for anything, and does not contradict itself.
pub open spec fn usable(config: ConfigView) -> bool {
    &&& config.max_queued_messages != 0
    &&& config.max_retained_bytes != 0
    &&& config.max_in_flight_transactions != 0
    &&& config.max_handshake_transitions != 0
    &&& config.limits.max_segment_bytes != 0
    &&& config.limits.max_frame_bytes != 0
    &&& config.global_sequence == 0 || config.client_ident.global_sequence == 0
        || config.global_sequence == config.client_ident.global_sequence
}

/// A session that has not begun.
pub open spec fn initial(config: ConfigView) -> MachineView {
    MachineView {
        config,
        state: State::Disconnected,
        generation: 0,
        book: no_requests(),
        controls: Seq::empty(),
        incoming_count: 0,
        write_busy: false,
        next_outbound: Some(1),
        last_inbound: 0,
        next_transaction_id: Some(1),
        client_cookie: config.client_cookie,
        server_cookie: config.server_cookie,
        server_global_id: 0,
        server_addresses: Seq::empty(),
        server_features: 0,
        global_sequence: max_u64(config.global_sequence, config.client_ident.global_sequence),
        connect_sequence: config.connect_sequence,
        authenticated_global_id: 0,
        credential_identity: None,
        candidate_credential_identity: None,
        credential_change: CredentialChange::Unknown,
        renewal: RenewalState::Idle,
        renewal_pending: RenewalPending::No,
        server_flags: 0,
        connected_once: false,
        reconnect_attempts: 0,
        transitions: 0,
        connect_pending: false,
        terminal_error: None,
        replacement_cookies: config.replacement_cookies,
    }
}

/// One step of a session: the session after an input, and the effects that it asks for.
pub open spec fn stepped(m: MachineView, input: InputView) -> Trace {
    next(Trace { m, out: Seq::empty() }, input)
}

} // verus!
