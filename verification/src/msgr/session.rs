//! Sessions: requests in, replies out, across connections that come and go.
//!
//! A session does no input or output. Each step takes an input and returns the effects that its
//! owner is to carry out.

use super::control::{
    ClientIdent, Control, ControlView, ServerIdent, SessionReconnect, CONNECTION_FLAG_LOSSY,
};
use super::frame::{CrcCodec, Limits};
use super::message::{Message, MESSAGE_HEADER_SIZE};
use super::secure::validate_frame_size;
use super::session_laws::{
    balanced, law_step_keeps_the_books, lemma_balanced_after, lemma_begin_reconnect,
    lemma_fail_terminal, lemma_fault, lemma_first_unsent, lemma_follows_fail_sent,
    lemma_follows_replay, lemma_follows_trim, lemma_index_of, lemma_removed, lemma_sent_ids,
    lemma_tidy_empty, within,
};
use super::session_model::{
    accept_acknowledgment, acknowledge, admission, after_fault, after_id, answered, begin_handshake,
    begin_reconnect, beyond, cancel, client_ident, complete_renewal, connected, controlled,
    count_up, credential_seen, deliver, dispatch, fail_all, fail_ids, fail_sent, fail_terminal,
    failure, failures, fault, find, first_unsent, identified, index_of, initial, max_u64, next,
    next_id, no_requests, prepare_replay, queue_client_ident, queue_control, queue_reconnect,
    receive, reconnect_ok, refresh_cookie, removed, renewal_due, replayed, require_ready, resent,
    reset, reset_identity, retry, retry_global, sent_count, sent_ids, server_ident, set_state,
    start, start_transport, stepped, stop, take_in, transition_allowed, trim_replay, trimmed,
    usable, wait, without, written, Book, ConfigView, EffectView, InputView, MachineView,
    PendingView, Trace,
};
use crate::protocol::address::{same_endpoint, EntityAddrVec};
use std::collections::{HashMap, VecDeque};
use vstd::prelude::*;

pub use super::session_model::{
    CredentialChange, Event, ReconnectPolicy, RenewalPending, RenewalState, SessionError, State,
};

verus! {

broadcast use vstd::std_specs::hash::group_hash_axioms;

#[derive(Debug)]
pub struct Config {
    pub limits: Limits,
    pub max_queued_messages: usize,
    pub max_retained_bytes: u64,
    pub max_in_flight_transactions: usize,
    pub max_reconnect_attempts: usize,
    pub max_handshake_transitions: usize,
    pub reconnect_policy: ReconnectPolicy,
    pub client_ident: ClientIdent,
    pub client_cookie: u64,
    pub server_cookie: u64,
    pub global_sequence: u64,
    pub connect_sequence: u64,
    pub replacement_cookies: Vec<u64>,
}

impl View for Config {
    type V = ConfigView;

    open spec fn view(&self) -> ConfigView {
        ConfigView {
            limits: self.limits,
            max_queued_messages: self.max_queued_messages,
            max_retained_bytes: self.max_retained_bytes,
            max_in_flight_transactions: self.max_in_flight_transactions,
            max_reconnect_attempts: self.max_reconnect_attempts,
            max_handshake_transitions: self.max_handshake_transitions,
            reconnect_policy: self.reconnect_policy,
            client_ident: self.client_ident@,
            client_cookie: self.client_cookie,
            server_cookie: self.server_cookie,
            global_sequence: self.global_sequence,
            connect_sequence: self.connect_sequence,
            replacement_cookies: self.replacement_cookies@,
        }
    }
}

impl Clone for Config {
    fn clone(&self) -> (r: Self)
        ensures
            r@ == self@,
    {
        let mut replacement_cookies: Vec<u64> = Vec::new();
        let mut i: usize = 0;
        while i < self.replacement_cookies.len()
            invariant
                i <= self.replacement_cookies@.len(),
                replacement_cookies@ =~= self.replacement_cookies@.take(i as int),
            decreases self.replacement_cookies@.len() - i,
        {
            replacement_cookies.push(self.replacement_cookies[i]);
            i = i + 1;
        }
        assert(replacement_cookies@ =~= self.replacement_cookies@);
        Config {
            limits: self.limits,
            max_queued_messages: self.max_queued_messages,
            max_retained_bytes: self.max_retained_bytes,
            max_in_flight_transactions: self.max_in_flight_transactions,
            max_reconnect_attempts: self.max_reconnect_attempts,
            max_handshake_transitions: self.max_handshake_transitions,
            reconnect_policy: self.reconnect_policy,
            client_ident: self.client_ident.clone(),
            client_cookie: self.client_cookie,
            server_cookie: self.server_cookie,
            global_sequence: self.global_sequence,
            connect_sequence: self.connect_sequence,
            replacement_cookies,
        }
    }
}

#[derive(Debug, PartialEq, Eq)]
pub enum Input {
    Start { ready: bool },
    InitialConnection {
        authenticated_global_id: Option<u64>,
        credential_identity: Option<[u8; 32]>,
    },
    InitialIdentity {
        generation: u64,
        authenticated_global_id: Option<u64>,
        credential_identity: Option<[u8; 32]>,
    },
    Admit { request_id: u64, message: Message, one_way: bool },
    Cancel { request_id: u64 },
    Dispatch,
    WriteComplete { generation: u64, request_id: Option<u64>, result: Result<(), SessionError> },
    Connected {
        generation: u64,
        authenticated_global_id: Option<u64>,
        credential_identity: Option<[u8; 32]>,
    },
    ConnectFailed { generation: u64 },
    Control { generation: u64, control: Control },
    Message { generation: u64, message: Message },
    Fault { generation: u64, error: SessionError },
    RenewalDue { generation: u64 },
    ConsumeIncoming,
    Stop,
}

#[derive(Clone, Debug, PartialEq, Eq)]
pub enum Effect {
    Connect { generation: u64 },
    CloseTransport { generation: u64 },
    SendControl { generation: u64, control: Control },
    SendMessage { generation: u64, request_id: u64, message: Message },
    Admitted { request_id: u64, transaction_id: u64 },
    Completed { request_id: u64, reply: Option<Message> },
    Failed { request_id: u64, error: SessionError },
    Incoming(Message),
    Event(Event),
    Terminal(SessionError),
}

pub open spec fn identity_view(identity: Option<[u8; 32]>) -> Option<Seq<u8>> {
    match identity {
        Some(bytes) => Some(bytes@),
        None => None,
    }
}

pub open spec fn reply_view(reply: Option<Message>) -> Option<super::message::MessageView> {
    match reply {
        Some(message) => Some(message@),
        None => None,
    }
}

impl View for Input {
    type V = InputView;

    open spec fn view(&self) -> InputView {
        match *self {
            Input::Start { ready } => InputView::Start { ready },
            Input::InitialConnection { authenticated_global_id, credential_identity } => {
                InputView::InitialConnection {
                    authenticated_global_id,
                    credential_identity: identity_view(credential_identity),
                }
            },
            Input::InitialIdentity {
                generation,
                authenticated_global_id,
                credential_identity,
            } => InputView::InitialIdentity {
                generation,
                authenticated_global_id,
                credential_identity: identity_view(credential_identity),
            },
            Input::Admit { request_id, message, one_way } => InputView::Admit {
                request_id,
                message: message@,
                one_way,
            },
            Input::Cancel { request_id } => InputView::Cancel { request_id },
            Input::Dispatch => InputView::Dispatch,
            Input::WriteComplete { generation, request_id, result } => InputView::WriteComplete {
                generation,
                request_id,
                result,
            },
            Input::Connected { generation, authenticated_global_id, credential_identity } => {
                InputView::Connected {
                    generation,
                    authenticated_global_id,
                    credential_identity: identity_view(credential_identity),
                }
            },
            Input::ConnectFailed { generation } => InputView::ConnectFailed { generation },
            Input::Control { generation, control } => InputView::Control {
                generation,
                control: control@,
            },
            Input::Message { generation, message } => InputView::Message {
                generation,
                message: message@,
            },
            Input::Fault { generation, error } => InputView::Fault { generation, error },
            Input::RenewalDue { generation } => InputView::RenewalDue { generation },
            Input::ConsumeIncoming => InputView::ConsumeIncoming,
            Input::Stop => InputView::Stop,
        }
    }
}

impl View for Effect {
    type V = EffectView;

    open spec fn view(&self) -> EffectView {
        match *self {
            Effect::Connect { generation } => EffectView::Connect { generation },
            Effect::CloseTransport { generation } => EffectView::CloseTransport { generation },
            Effect::SendControl { generation, control } => EffectView::SendControl {
                generation,
                control: control@,
            },
            Effect::SendMessage { generation, request_id, message } => EffectView::SendMessage {
                generation,
                request_id,
                message: message@,
            },
            Effect::Admitted { request_id, transaction_id } => EffectView::Admitted {
                request_id,
                transaction_id,
            },
            Effect::Completed { request_id, reply } => EffectView::Completed {
                request_id,
                reply: reply_view(reply),
            },
            Effect::Failed { request_id, error } => EffectView::Failed { request_id, error },
            Effect::Incoming(message) => EffectView::Incoming(message@),
            Effect::Event(event) => EffectView::Event(event),
            Effect::Terminal(error) => EffectView::Terminal(error),
        }
    }
}

pub open spec fn effects_view(effects: Seq<Effect>) -> Seq<EffectView> {
    Seq::new(effects.len(), |i: int| effects[i]@)
}

/// What can be seen of a session from outside.
#[derive(Clone, Debug, PartialEq, Eq)]
pub struct Snapshot {
    pub state: State,
    pub generation: u64,
    pub next_outbound_sequence: u64,
    pub last_inbound_sequence: u64,
    pub next_transaction_id: u64,
    pub client_cookie: u64,
    pub server_cookie: u64,
    pub server_global_id: i64,
    pub server_addresses: EntityAddrVec,
    pub server_features: u64,
    pub global_sequence: u64,
    pub connect_sequence: u64,
    pub queued: usize,
    pub in_flight: usize,
    pub replay: usize,
    pub retained_bytes: u64,
    pub reconnect_attempts: usize,
    pub handshake_transitions: usize,
    pub dropped_events: u64,
}

/// A request that has not been answered.
#[derive(Clone, Debug)]
pub struct Pending {
    pub request_id: u64,
    pub message: Message,
    pub bytes: u64,
    pub sequence: u64,
    pub sent: bool,
    pub may_have_executed: bool,
    pub one_way: bool,
}

impl View for Pending {
    type V = PendingView;

    open spec fn view(&self) -> PendingView {
        PendingView {
            request_id: self.request_id,
            message: self.message@,
            bytes: self.bytes,
            sequence: self.sequence,
            sent: self.sent,
            may_have_executed: self.may_have_executed,
            one_way: self.one_way,
        }
    }
}

pub open spec fn pending_view(pending: Seq<Pending>) -> Seq<PendingView> {
    Seq::new(pending.len(), |i: int| pending[i]@)
}

pub open spec fn controls_view(controls: Seq<Control>) -> Seq<ControlView> {
    Seq::new(controls.len(), |i: int| controls[i]@)
}

#[derive(Debug)]
pub struct Machine {
    pub config: Config,
    pub state: State,
    pub generation: u64,
    pub pending: Vec<Pending>,
    pub by_transaction: HashMap<u64, u64>,
    pub replay: Vec<u64>,
    pub controls: VecDeque<Control>,
    pub retained_bytes: u64,
    pub incoming_count: usize,
    pub write_busy: bool,
    pub next_outbound: Option<u64>,
    pub last_inbound: u64,
    pub next_transaction_id: Option<u64>,
    pub client_cookie: u64,
    pub server_cookie: u64,
    pub server_global_id: i64,
    pub server_addresses: EntityAddrVec,
    pub server_features: u64,
    pub global_sequence: u64,
    pub connect_sequence: u64,
    pub authenticated_global_id: u64,
    pub credential_identity: Option<[u8; 32]>,
    pub candidate_credential_identity: Option<[u8; 32]>,
    pub credential_change: CredentialChange,
    pub renewal: RenewalState,
    pub renewal_pending: RenewalPending,
    pub server_flags: u64,
    pub connected_once: bool,
    pub reconnect_attempts: usize,
    pub transitions: usize,
    pub connect_pending: bool,
    pub terminal_error: Option<SessionError>,
    pub replacement_cookies: VecDeque<u64>,
}

impl View for Machine {
    type V = MachineView;

    open spec fn view(&self) -> MachineView {
        MachineView {
            config: self.config@,
            state: self.state,
            generation: self.generation,
            book: Book {
                pending: pending_view(self.pending@),
                by_transaction: self.by_transaction@,
                replay: self.replay@,
                retained_bytes: self.retained_bytes,
            },
            controls: controls_view(self.controls@),
            incoming_count: self.incoming_count,
            write_busy: self.write_busy,
            next_outbound: self.next_outbound,
            last_inbound: self.last_inbound,
            next_transaction_id: self.next_transaction_id,
            client_cookie: self.client_cookie,
            server_cookie: self.server_cookie,
            server_global_id: self.server_global_id,
            server_addresses: self.server_addresses@,
            server_features: self.server_features,
            global_sequence: self.global_sequence,
            connect_sequence: self.connect_sequence,
            authenticated_global_id: self.authenticated_global_id,
            credential_identity: identity_view(self.credential_identity),
            candidate_credential_identity: identity_view(self.candidate_credential_identity),
            credential_change: self.credential_change,
            renewal: self.renewal,
            renewal_pending: self.renewal_pending,
            server_flags: self.server_flags,
            connected_once: self.connected_once,
            reconnect_attempts: self.reconnect_attempts,
            transitions: self.transitions,
            connect_pending: self.connect_pending,
            terminal_error: self.terminal_error,
            replacement_cookies: self.replacement_cookies@,
        }
    }
}

/// A session, and the effects that it has asked for in a step.
pub open spec fn so_far(m: MachineView, effects: Seq<Effect>) -> Trace {
    Trace { m, out: effects_view(effects) }
}

fn emit(effects: &mut Vec<Effect>, effect: Effect)
    ensures
        effects_view(final(effects)@) == effects_view(old(effects)@).push(effect@),
{
    effects.push(effect);
    assert(effects_view(effects@) =~= effects_view(old(effects)@).push(effect@));
}

impl Machine {
    pub fn new(config: Config) -> (r: Result<Self, SessionError>)
        ensures
            r is Ok <==> usable(config@),
            r matches Err(error) ==> error == SessionError::Malformed,
            r matches Ok(machine) ==> machine@ == initial(config@) && balanced(machine@.book)
                && within(machine@),
    {
        if config.max_queued_messages == 0 || config.max_retained_bytes == 0
            || config.max_in_flight_transactions == 0 || config.max_handshake_transitions == 0
            || config.limits.max_segment_bytes == 0 || config.limits.max_frame_bytes == 0 {
            return Err(SessionError::Malformed);
        }
        if config.global_sequence != 0 && config.client_ident.global_sequence != 0
            && config.global_sequence != config.client_ident.global_sequence {
            return Err(SessionError::Malformed);
        }
        let global_sequence: u64 = if config.global_sequence
            > config.client_ident.global_sequence {
            config.global_sequence
        } else {
            config.client_ident.global_sequence
        };
        let mut replacement_cookies: VecDeque<u64> = VecDeque::new();
        let mut i: usize = 0;
        while i < config.replacement_cookies.len()
            invariant
                i <= config.replacement_cookies@.len(),
                replacement_cookies@ =~= config.replacement_cookies@.take(i as int),
            decreases config.replacement_cookies@.len() - i,
        {
            replacement_cookies.push_back(config.replacement_cookies[i]);
            i = i + 1;
        }
        assert(replacement_cookies@ =~= config.replacement_cookies@);
        let machine = Machine {
            state: State::Disconnected,
            generation: 0,
            pending: Vec::new(),
            by_transaction: HashMap::new(),
            replay: Vec::new(),
            controls: VecDeque::new(),
            retained_bytes: 0,
            incoming_count: 0,
            write_busy: false,
            next_outbound: Some(1),
            last_inbound: 0,
            next_transaction_id: Some(1),
            client_cookie: config.client_cookie,
            server_cookie: config.server_cookie,
            server_global_id: 0,
            server_addresses: EntityAddrVec(Vec::new()),
            server_features: 0,
            global_sequence,
            connect_sequence: config.connect_sequence,
            authenticated_global_id: 0,
            credential_identity: None,
            candidate_credential_identity: None,
            credential_change: CredentialChange::Unknown,
            renewal: RenewalState::Idle,
            renewal_pending: RenewalPending::No,
            server_flags: 0,
            connected_once: false,
            reconnect_attempts: 0,
            transitions: 0,
            connect_pending: false,
            terminal_error: None,
            replacement_cookies,
            config,
        };
        proof {
            lemma_tidy_empty();
        }
        assert(machine@ =~= initial(config@));
        Ok(machine)
    }

    /// Where the request with this id stands.
    fn position(&self, request_id: u64) -> (r: Option<usize>)
        ensures
            r matches Some(i) ==> index_of(self@.book.pending, request_id) == Some(i as int) && i
                < self.pending@.len(),
            r is None ==> index_of(self@.book.pending, request_id) is None,
    {
        let mut i: usize = 0;
        proof {
            lemma_index_of(self@.book.pending, request_id);
        }
        while i < self.pending.len()
            invariant
                i <= self.pending@.len(),
                forall|j: int|
                    0 <= j < i ==> (#[trigger] self@.book.pending[j]).request_id != request_id,
            decreases self.pending@.len() - i,
        {
            if self.pending[i].request_id == request_id {
                proof {
                    lemma_index_of(self@.book.pending, request_id);
                    assert(self@.book.pending[i as int].request_id == request_id);
                }
                return Some(i);
            }
            i = i + 1;
        }
        None
    }

    /// The request with this id, if it waits.
    pub fn pending(&self, request_id: u64) -> (r: Option<&Pending>)
        ensures
            match r {
                Some(p) => find(self@.book.pending, request_id) == Some(p@),
                None => find(self@.book.pending, request_id) is None,
            },
    {
        match self.position(request_id) {
            Some(i) => Some(&self.pending[i]),
            None => None,
        }
    }

    /// The number of requests that are on the way.
    pub fn in_flight_count(&self) -> (r: usize)
        ensures
            r == sent_count(self@.book.pending),
            r <= self.pending@.len(),
    {
        let mut count: usize = 0;
        let mut i: usize = 0;
        while i < self.pending.len()
            invariant
                i <= self.pending@.len(),
                count <= i,
                count == sent_count(self@.book.pending.take(i as int)),
            decreases self.pending@.len() - i,
        {
            let ghost all = self@.book.pending;
            assert(all.take(i + 1).drop_last() =~= all.take(i as int));
            if self.pending[i].sent {
                count = count + 1;
            }
            i = i + 1;
        }
        assert(self@.book.pending.take(i as int) =~= self@.book.pending);
        count
    }

    fn first_unsent(&self) -> (r: Option<usize>)
        ensures
            match r {
                Some(i) => first_unsent(self@.book.pending) == Some(i as int) && i
                    < self.pending@.len(),
                None => first_unsent(self@.book.pending) is None,
            },
    {
        let mut i: usize = 0;
        proof {
            lemma_first_unsent(self@.book.pending);
        }
        while i < self.pending.len()
            invariant
                i <= self.pending@.len(),
                forall|j: int| 0 <= j < i ==> (#[trigger] self@.book.pending[j]).sent,
            decreases self.pending@.len() - i,
        {
            if !self.pending[i].sent {
                proof {
                    lemma_first_unsent(self@.book.pending);
                    assert(!self@.book.pending[i as int].sent);
                }
                return Some(i);
            }
            i = i + 1;
        }
        None
    }

    /// Takes the request with this id off the books.
    fn remove_pending(&mut self, request_id: u64)
        requires
            balanced(old(self)@.book),
        ensures
            final(self)@ == (MachineView {
                book: removed(old(self)@.book, request_id),
                ..old(self)@
            }),
            balanced(final(self)@.book),
    {
        reveal(removed);
        proof {
            lemma_removed(self@.book, request_id);
        }
        let ghost before = self@.book;
        match self.position(request_id) {
            None => {},
            Some(index) => {
                let pending = self.pending.remove(index);
                assert(self@.book.pending =~= before.pending.remove(index as int));
                retain_other(&mut self.replay, request_id);
                self.by_transaction.remove(&pending.message.header.transaction_id);
                self.retained_bytes = self.retained_bytes - pending.bytes;
            },
        }
    }

    fn set_state(&mut self, state: State, effects: &mut Vec<Effect>)
        ensures
            so_far(final(self)@, final(effects)@) == set_state(
                so_far(old(self)@, old(effects)@),
                state,
            ),
    {
        reveal(set_state);
        if self.state != state {
            self.state = state;
            emit(effects, Effect::Event(Event::StateChanged(state)));
        }
    }

    fn fail_all(&mut self, error: SessionError, effects: &mut Vec<Effect>)
        ensures
            so_far(final(self)@, final(effects)@) == fail_all(
                so_far(old(self)@, old(effects)@),
                error,
            ),
            balanced(final(self)@.book),
    {
        proof {
            reveal(fail_all);
            lemma_tidy_empty();
        }
        let ghost pending = self@.book.pending;
        let mut i: usize = 0;
        assert(effects_view(effects@) =~= effects_view(old(effects)@) + failures(
            pending.take(0),
            error,
        ));
        while i < self.pending.len()
            invariant
                i <= self.pending@.len(),
                pending == self@.book.pending,
                self@ == old(self)@,
                effects_view(effects@) =~= effects_view(old(effects)@) + failures(
                    pending.take(i as int),
                    error,
                ),
            decreases self.pending@.len() - i,
        {
            let request_id: u64 = self.pending[i].request_id;
            let reported = if self.pending[i].may_have_executed {
                SessionError::OutcomeUnknown
            } else {
                error
            };
            emit(effects, Effect::Failed { request_id, error: reported });
            assert(pending[i as int] == self.pending@[i as int]@);
            assert(failures(pending.take(i + 1), error) =~= failures(
                pending.take(i as int),
                error,
            ).push(failure(pending[i as int], error)));
            i = i + 1;
        }
        assert(pending.take(i as int) =~= pending);
        self.pending = Vec::new();
        self.replay = Vec::new();
        self.by_transaction = HashMap::new();
        self.retained_bytes = 0;
        assert(self@.book =~= no_requests());
    }

    /// The ids of the requests that are on the way.
    fn sent_ids(&self) -> (r: Vec<u64>)
        ensures
            r@ == sent_ids(self@.book.pending),
    {
        let mut ids: Vec<u64> = Vec::new();
        let mut i: usize = 0;
        assert(ids@ =~= sent_ids(self@.book.pending.take(0)));
        while i < self.pending.len()
            invariant
                i <= self.pending@.len(),
                ids@ == sent_ids(self@.book.pending.take(i as int)),
            decreases self.pending@.len() - i,
        {
            let ghost all = self@.book.pending;
            assert(all.take(i + 1).drop_last() =~= all.take(i as int));
            if self.pending[i].sent {
                ids.push(self.pending[i].request_id);
            }
            i = i + 1;
        }
        assert(self@.book.pending.take(i as int) =~= self@.book.pending);
        ids
    }

    fn fail_sent_unknown(&mut self, effects: &mut Vec<Effect>)
        requires
            balanced(old(self)@.book),
        ensures
            so_far(final(self)@, final(effects)@) == fail_sent(so_far(old(self)@, old(effects)@)),
            balanced(final(self)@.book),
    {
        let ghost before = so_far(self@, effects@);
        let ids = self.sent_ids();
        proof {
            lemma_sent_ids(self@.book.pending);
            assert(ids@.take(0) =~= Seq::empty());
        }
        let mut i: usize = 0;
        while i < ids.len()
            invariant
                i <= ids@.len(),
                balanced(before.m.book),
                balanced(self@.book),
                ids@ == sent_ids(before.m.book.pending),
                so_far(self@, effects@) == fail_ids(before, ids@.take(i as int)),
            decreases ids@.len() - i,
        {
            self.remove_pending(ids[i]);
            emit(
                effects,
                Effect::Failed { request_id: ids[i], error: SessionError::OutcomeUnknown },
            );
            assert(ids@.take(i + 1).drop_last() =~= ids@.take(i as int));
            i = i + 1;
        }
        assert(ids@.take(i as int) =~= ids@);
        self.replay = Vec::new();
        proof {
            broadcast use lemma_balanced_after;

            lemma_follows_fail_sent(before);
            reveal(fail_sent);
            assert(self@.book.replay =~= Seq::empty());
        }
    }
}

impl Machine {
    fn fail_terminal(&mut self, error: SessionError, effects: &mut Vec<Effect>)
        requires
            balanced(old(self)@.book),
            error != SessionError::OutcomeUnknown,
        ensures
            so_far(final(self)@, final(effects)@) == fail_terminal(
                so_far(old(self)@, old(effects)@),
                error,
            ),
            balanced(final(self)@.book),
    {
        broadcast use lemma_balanced_after;

        proof {
            lemma_fail_terminal(so_far(self@, effects@), error);
            reveal(fail_terminal);
        }
        if self.terminal_error.is_some() {
            return;
        }
        self.terminal_error = Some(error);
        emit(effects, Effect::Terminal(error));
        emit(effects, Effect::Event(Event::TransportFault(error)));
        self.write_busy = false;
        self.controls.clear();
        assert(self@.controls =~= Seq::empty());
        self.connect_pending = false;
        emit(effects, Effect::CloseTransport { generation: self.generation });
        self.fail_all(error, effects);
        self.set_state(State::Disconnected, effects);
    }

    fn begin_reconnect(&mut self, effects: &mut Vec<Effect>)
        requires
            balanced(old(self)@.book),
        ensures
            so_far(final(self)@, final(effects)@) == begin_reconnect(
                so_far(old(self)@, old(effects)@),
            ),
            balanced(final(self)@.book),
    {
        broadcast use lemma_balanced_after;

        proof {
            lemma_begin_reconnect(so_far(self@, effects@));
            reveal(begin_reconnect);
        }
        if self.config.max_reconnect_attempts == 0 || self.reconnect_attempts
            >= self.config.max_reconnect_attempts {
            self.fail_terminal(SessionError::ReconnectExhausted, effects);
            return;
        }
        self.reconnect_attempts = self.reconnect_attempts + 1;
        self.connect_pending = true;
        if self.generation == u64::MAX {
            self.fail_terminal(SessionError::TransitionLimit, effects);
            return;
        }
        self.generation = self.generation + 1;
        emit(effects, Effect::Connect { generation: self.generation });
    }

    fn reset_for_new_identity(&mut self, effects: &mut Vec<Effect>)
        ensures
            so_far(final(self)@, final(effects)@) == reset_identity(
                so_far(old(self)@, old(effects)@),
            ),
            balanced(final(self)@.book),
    {
        reveal(reset_identity);
        self.server_cookie = 0;
        self.server_flags = 0;
        self.connect_sequence = 0;
        self.last_inbound = 0;
        self.next_outbound = Some(1);
        self.next_transaction_id = Some(1);
        self.fail_all(SessionError::Disconnected, effects);
    }

    /// The requests to send again are no longer on the way.
    fn prepare_replay(&mut self)
        requires
            balanced(old(self)@.book),
        ensures
            final(self)@ == (MachineView { book: replayed(old(self)@.book), ..old(self)@ }),
            balanced(final(self)@.book),
    {
        broadcast use lemma_balanced_after;

        let ghost before = self@;
        proof {
            lemma_follows_replay(Trace { m: before, out: Seq::empty() });
            reveal(replayed);
        }
        let mut i: usize = 0;
        while i < self.pending.len()
            invariant
                i <= self.pending@.len(),
                self@ == (MachineView {
                    book: Book { pending: self@.book.pending, ..before.book },
                    ..before
                }),
                self@.book.pending.len() == before.book.pending.len(),
                forall|j: int|
                    0 <= j < i ==> #[trigger] self@.book.pending[j] == (PendingView {
                        sent: before.book.pending[j].sent && !before.book.replay.contains(
                            before.book.pending[j].request_id,
                        ),
                        ..before.book.pending[j]
                    }),
                forall|j: int|
                    i <= j < self.pending@.len() ==> #[trigger] self@.book.pending[j]
                        == before.book.pending[j],
            decreases self.pending@.len() - i,
        {
            let ghost now = self@;
            assert(self@.book.pending[i as int] == self.pending@[i as int]@);
            if contains_id(&self.replay, self.pending[i].request_id) {
                let pending = &mut self.pending[i];
                pending.sent = false;
            }
            assert forall|j: int|
                0 <= j < self.pending@.len() && j != i implies #[trigger] self@.book.pending[j]
                == now.book.pending[j] by {}
            i = i + 1;
        }
        assert(self@.book.pending =~= replayed(before.book).pending);
    }

    fn trim_replay(&mut self, sequence: u64)
        requires
            balanced(old(self)@.book),
        ensures
            final(self)@ == (MachineView {
                book: Book {
                    replay: trimmed(
                        old(self)@.book.replay,
                        old(self)@.book.pending,
                        sequence,
                    ),
                    ..old(self)@.book
                },
                ..old(self)@
            }),
            balanced(final(self)@.book),
    {
        broadcast use lemma_balanced_after;

        let ghost before = self@;
        proof {
            lemma_follows_trim(Trace { m: before, out: Seq::empty() }, sequence);
        }
        let mut rest: Vec<u64> = Vec::new();
        let mut i: usize = 0;
        assert(rest@ =~= trimmed(self.replay@.take(0), before.book.pending, sequence));
        while i < self.replay.len()
            invariant
                i <= self.replay@.len(),
                self@ == before,
                rest@ == trimmed(self.replay@.take(i as int), before.book.pending, sequence),
            decreases self.replay@.len() - i,
        {
            assert(self.replay@.take(i + 1).drop_last() =~= self.replay@.take(i as int));
            let request_id: u64 = self.replay[i];
            let kept = match self.pending(request_id) {
                Some(pending) => pending.sequence > sequence,
                None => false,
            };
            assert(kept == beyond(before.book.pending, request_id, sequence));
            if kept {
                rest.push(request_id);
            }
            i = i + 1;
        }
        assert(self.replay@.take(i as int) =~= self.replay@);
        self.replay = rest;
    }

    /// The connection failed.
    pub fn fault(&mut self, error: SessionError, effects: &mut Vec<Effect>)
        requires
            balanced(old(self)@.book),
        ensures
            so_far(final(self)@, final(effects)@) == fault(
                so_far(old(self)@, old(effects)@),
                error,
            ),
            balanced(final(self)@.book),
    {
        broadcast use lemma_balanced_after;

        proof {
            lemma_fault(so_far(self@, effects@), error);
            reveal(fault);
            reveal(after_fault);
        }
        if self.terminal_error.is_some() || self.state == State::Stopped || (self.state
            == State::Disconnected && self.connect_pending) {
            return;
        }
        emit(effects, Effect::Event(Event::TransportFault(error)));
        emit(effects, Effect::CloseTransport { generation: self.generation });
        self.write_busy = false;
        self.controls.clear();
        assert(self@.controls =~= Seq::empty());
        if self.server_flags & CONNECTION_FLAG_LOSSY != 0 {
            self.fail_sent_unknown(effects);
            self.reset_for_new_identity(effects);
        } else if self.config.reconnect_policy == ReconnectPolicy::FailPending {
            self.fail_all(SessionError::Disconnected, effects);
        } else if self.server_cookie == 0 {
            self.fail_sent_unknown(effects);
        } else {
            self.prepare_replay();
        }
        proof {
            reveal(set_state);
        }
        self.set_state(State::Disconnected, effects);
        self.begin_reconnect(effects);
    }
}

impl Machine {
    /// A connection stands. Returns whether its generation could be counted.
    fn start_transport(&mut self, state: State, effects: &mut Vec<Effect>) -> (r: bool)
        requires
            balanced(old(self)@.book),
        ensures
            (so_far(final(self)@, final(effects)@), r) == start_transport(
                so_far(old(self)@, old(effects)@),
                state,
            ),
            balanced(final(self)@.book),
    {
        proof {
            reveal(start_transport);
            reveal(set_state);
        }
        if self.generation == u64::MAX {
            self.fail_terminal(SessionError::TransitionLimit, effects);
            return false;
        }
        self.generation = self.generation + 1;
        self.set_state(state, effects);
        true
    }

    fn queue_control(&mut self, control: Control, effects: &mut Vec<Effect>)
        requires
            balanced(old(self)@.book),
        ensures
            so_far(final(self)@, final(effects)@) == queue_control(
                so_far(old(self)@, old(effects)@),
                control@,
            ),
            balanced(final(self)@.book),
    {
        reveal(queue_control);
        if self.controls.len() >= self.config.max_queued_messages {
            self.fault(SessionError::QueueSaturated, effects);
        } else {
            self.controls.push_back(control);
            assert(self@.controls =~= old(self)@.controls.push(control@));
        }
    }

    fn queue_client_ident(&mut self, effects: &mut Vec<Effect>)
        requires
            balanced(old(self)@.book),
        ensures
            so_far(final(self)@, final(effects)@) == queue_client_ident(
                so_far(old(self)@, old(effects)@),
            ),
            balanced(final(self)@.book),
    {
        let mut ident = self.config.client_ident.clone();
        ident.cookie = self.client_cookie;
        ident.global_sequence = self.global_sequence;
        self.queue_control(Control::ClientIdent(ident), effects);
    }

    fn queue_reconnect(&mut self, effects: &mut Vec<Effect>)
        requires
            balanced(old(self)@.book),
        ensures
            so_far(final(self)@, final(effects)@) == queue_reconnect(
                so_far(old(self)@, old(effects)@),
            ),
            balanced(final(self)@.book),
    {
        self.controls.clear();
        assert(self@.controls =~= Seq::empty());
        let request = SessionReconnect {
            addresses: self.config.client_ident.addresses.clone(),
            client_cookie: self.client_cookie,
            server_cookie: self.server_cookie,
            global_sequence: self.global_sequence,
            connect_sequence: self.connect_sequence,
            message_sequence: self.last_inbound,
        };
        self.queue_control(Control::SessionReconnect(request), effects);
    }

    /// Takes the next cookie. Returns whether there was one.
    fn refresh_cookie(&mut self, effects: &mut Vec<Effect>) -> (r: bool)
        requires
            balanced(old(self)@.book),
        ensures
            (so_far(final(self)@, final(effects)@), r) == refresh_cookie(
                so_far(old(self)@, old(effects)@),
            ),
            balanced(final(self)@.book),
    {
        reveal(refresh_cookie);
        match self.replacement_cookies.pop_front() {
            None => {
                self.fail_terminal(SessionError::Disconnected, effects);
                false
            },
            Some(cookie) => {
                assert(self.replacement_cookies@ =~= old(self).replacement_cookies@.skip(1));
                if cookie == 0 {
                    self.fail_terminal(SessionError::Malformed, effects);
                    return false;
                }
                self.client_cookie = cookie;
                true
            },
        }
    }

    fn require_ready(&mut self, effects: &mut Vec<Effect>) -> (r: bool)
        requires
            balanced(old(self)@.book),
        ensures
            (so_far(final(self)@, final(effects)@), r) == require_ready(
                so_far(old(self)@, old(effects)@),
            ),
            balanced(final(self)@.book),
    {
        reveal(require_ready);
        if self.state == State::Ready {
            true
        } else {
            self.fault(SessionError::Malformed, effects);
            false
        }
    }

    fn count_transition(&mut self)
        ensures
            final(self)@ == (MachineView {
                transitions: count_up(old(self)@.transitions),
                ..old(self)@
            }),
    {
        if self.transitions < usize::MAX {
            self.transitions = self.transitions + 1;
        }
    }

    fn transition_allowed(&mut self, expected: State, effects: &mut Vec<Effect>) -> (r: bool)
        requires
            balanced(old(self)@.book),
        ensures
            (so_far(final(self)@, final(effects)@), r) == transition_allowed(
                so_far(old(self)@, old(effects)@),
                expected,
            ),
            balanced(final(self)@.book),
    {
        reveal(transition_allowed);
        if self.state != expected {
            self.fault(SessionError::Malformed, effects);
            return false;
        }
        self.count_transition();
        if self.transitions > self.config.max_handshake_transitions {
            self.fault(SessionError::TransitionLimit, effects);
            return false;
        }
        true
    }

    fn accept_acknowledgment(&mut self, sequence: u64, effects: &mut Vec<Effect>) -> (r: bool)
        requires
            balanced(old(self)@.book),
        ensures
            (so_far(final(self)@, final(effects)@), r) == accept_acknowledgment(
                so_far(old(self)@, old(effects)@),
                sequence,
            ),
            balanced(final(self)@.book),
    {
        reveal(accept_acknowledgment);
        let unsent = match self.next_outbound {
            Some(next_outbound) => sequence != 0 && sequence >= next_outbound,
            None => false,
        };
        if unsent {
            self.fault(SessionError::Malformed, effects);
            false
        } else {
            true
        }
    }

    fn complete_renewal(&mut self, effects: &mut Vec<Effect>) -> (r: bool)
        requires
            balanced(old(self)@.book),
        ensures
            (so_far(final(self)@, final(effects)@), r) == complete_renewal(
                so_far(old(self)@, old(effects)@),
            ),
            balanced(final(self)@.book),
    {
        reveal(complete_renewal);
        if self.renewal != RenewalState::Reconnecting {
            return true;
        }
        if self.credential_change == CredentialChange::Changed {
            self.credential_identity = self.candidate_credential_identity;
            self.candidate_credential_identity = None;
            if self.renewal_pending == RenewalPending::Yes {
                self.renewal_pending = RenewalPending::No;
                emit(effects, Effect::Event(Event::CredentialRenewal));
                self.renewal = RenewalState::Draining;
            } else {
                self.renewal = RenewalState::Idle;
            }
            self.credential_change = CredentialChange::Unknown;
            emit(effects, Effect::Event(Event::CredentialRenewalCompleted));
            true
        } else {
            self.fault(SessionError::Renewal, effects);
            false
        }
    }

    fn reset(&mut self, full: bool, effects: &mut Vec<Effect>)
        requires
            balanced(old(self)@.book),
        ensures
            so_far(final(self)@, final(effects)@) == reset(so_far(old(self)@, old(effects)@), full),
            balanced(final(self)@.book),
    {
        proof {
            reveal(reset);
            reveal(set_state);
        }
        emit(effects, Effect::Event(Event::SessionReset { full }));
        self.server_cookie = 0;
        self.server_flags = 0;
        self.connect_sequence = 0;
        self.last_inbound = 0;
        if full {
            if !self.refresh_cookie(effects) {
                return;
            }
            self.next_outbound = Some(1);
            self.next_transaction_id = Some(1);
            self.fail_all(SessionError::Disconnected, effects);
        } else {
            self.prepare_replay();
        }
        self.set_state(State::Connecting, effects);
        self.queue_client_ident(effects);
    }

    fn start(&mut self, ready: bool, effects: &mut Vec<Effect>)
        requires
            balanced(old(self)@.book),
        ensures
            so_far(final(self)@, final(effects)@) == start(
                so_far(old(self)@, old(effects)@),
                ready,
            ),
            balanced(final(self)@.book),
    {
        reveal(start);
        if self.state != State::Disconnected || self.connect_pending
            || self.terminal_error.is_some() {
            return;
        }
        if ready {
            self.connected_once = true;
            self.start_transport(State::Ready, effects);
        } else {
            self.begin_reconnect(effects);
        }
    }

    /// The bytes that a message holds while it waits, if it can be sent within the limits.
    fn admission_bytes(&self, message: &Message) -> (r: Result<u64, SessionError>)
        ensures
            r == admission(self@.config.limits, message@),
            r matches Ok(bytes) ==> bytes > 0,
    {
        reveal(admission);
        let limits = self.config.limits;
        if message.front.len() as u64 > u32::MAX as u64 || message.middle.len() as u64
            > u32::MAX as u64 || message.data.len() as u64 > u32::MAX as u64 {
            return Err(SessionError::Malformed);
        }
        let front: u32 = message.front.len() as u32;
        let middle: u32 = message.middle.len() as u32;
        let data: u32 = message.data.len() as u32;
        if message.lengths.front != front || message.lengths.middle != middle
            || message.lengths.data != data || message.header.data_pre_padding_length > data
            || front > limits.max_segment_bytes || middle > limits.max_segment_bytes || data
            > limits.max_segment_bytes {
            return Err(SessionError::Malformed);
        }
        let bytes: u64 = MESSAGE_HEADER_SIZE as u64 + front as u64 + middle as u64 + data as u64;
        let frame = match message.clone().encode(limits) {
            Ok(frame) => frame,
            Err(error) => {
                return Err(SessionError::Frame(error));
            },
        };
        let codec = CrcCodec { with_data_crc: true };
        if codec.encode(&frame, limits).is_err() || validate_frame_size(&frame, limits).is_err() {
            return Err(SessionError::Malformed);
        }
        Ok(bytes)
    }

    /// The transaction id of the next request that brings none.
    fn take_transaction_id(&mut self) -> (r: Result<u64, SessionError>)
        ensures
            final(self)@ == (MachineView {
                next_transaction_id: after_id(next_id(old(self)@)),
                ..old(self)@
            }),
            match r {
                Ok(id) => next_id(old(self)@) == Some(id),
                Err(error) => next_id(old(self)@) is None && error
                    == SessionError::TransitionLimit,
            },
    {
        loop
            invariant
                self@ == (MachineView {
                    next_transaction_id: self.next_transaction_id,
                    ..old(self)@
                }),
                next_id(self@) == next_id(old(self)@),
            decreases
                    match self.next_transaction_id {
                        Some(next) => u64::MAX - next + 1,
                        None => 0int,
                    },
        {
            let next: u64 = match self.next_transaction_id {
                Some(next) => next,
                None => {
                    return Err(SessionError::TransitionLimit);
                },
            };
            let transaction_id: u64 = if next > 1 {
                next
            } else {
                1
            };
            if transaction_id == u64::MAX {
                self.next_transaction_id = None;
            } else {
                self.next_transaction_id = Some(transaction_id + 1);
            }
            if !self.by_transaction.contains_key(&transaction_id) {
                return Ok(transaction_id);
            }
        }
    }

    /// The sequence number of the next request that is sent.
    fn allocate_sequence(&mut self) -> (r: Result<u64, SessionError>)
        ensures
            match old(self)@.next_outbound {
                Some(next) => r == Ok::<u64, SessionError>(max_u64(next, 1)) && final(self)@ == (
                MachineView { next_outbound: after_id(Some(max_u64(next, 1))), ..old(self)@ }),
                None => r == Err::<u64, SessionError>(SessionError::TransitionLimit)
                    && final(self)@ == old(self)@,
            },
    {
        let next: u64 = match self.next_outbound {
            Some(next) => next,
            None => {
                return Err(SessionError::TransitionLimit);
            },
        };
        let sequence: u64 = if next > 1 {
            next
        } else {
            1
        };
        if sequence == u64::MAX {
            self.next_outbound = None;
        } else {
            self.next_outbound = Some(sequence + 1);
        }
        Ok(sequence)
    }
}

impl Machine {
    /// A request comes in.
    #[verifier::rlimit(60)]
    #[verifier::spinoff_prover]
    fn admit_request(
        &mut self,
        request_id: u64,
        message: Message,
        one_way: bool,
        effects: &mut Vec<Effect>,
    )
        requires
            balanced(old(self)@.book),
        ensures
            so_far(final(self)@, final(effects)@) == take_in(
                so_far(old(self)@, old(effects)@),
                request_id,
                message@,
                one_way,
            ),
    {
        reveal(take_in);
        if let Some(error) = self.terminal_error {
            emit(effects, Effect::Failed { request_id, error });
            return;
        }
        if self.state == State::Stopped {
            emit(effects, Effect::Failed { request_id, error: SessionError::Closed });
            return;
        }
        let bytes: u64 = match self.admission_bytes(&message) {
            Ok(bytes) => bytes,
            Err(_) => {
                emit(effects, Effect::Failed { request_id, error: SessionError::Malformed });
                return;
            },
        };
        if self.pending.len() >= self.config.max_queued_messages || self.retained_bytes
            > self.config.max_retained_bytes || bytes > self.config.max_retained_bytes
            - self.retained_bytes || self.pending(request_id).is_some() {
            emit(effects, Effect::Failed { request_id, error: SessionError::QueueSaturated });
            return;
        }
        let transaction_id: u64 = if message.header.transaction_id == 0 {
            match self.take_transaction_id() {
                Ok(transaction_id) => transaction_id,
                Err(error) => {
                    self.fail_terminal(error, effects);
                    emit(effects, Effect::Failed { request_id, error });
                    return;
                },
            }
        } else if self.by_transaction.contains_key(&message.header.transaction_id) {
            emit(effects, Effect::Failed { request_id, error: SessionError::Malformed });
            return;
        } else {
            message.header.transaction_id
        };
        let ghost before = self@;
        let mut message = message;
        message.header.transaction_id = transaction_id;
        let pending = Pending {
            request_id,
            message,
            bytes,
            sequence: 0,
            sent: false,
            may_have_executed: false,
            one_way,
        };
        self.pending.push(pending);
        assert(self@.book.pending =~= before.book.pending.push(pending@));
        self.by_transaction.insert(transaction_id, request_id);
        self.retained_bytes = self.retained_bytes + bytes;
        emit(effects, Effect::Admitted { request_id, transaction_id });
    }

    fn cancel(&mut self, request_id: u64, effects: &mut Vec<Effect>)
        requires
            balanced(old(self)@.book),
        ensures
            so_far(final(self)@, final(effects)@) == cancel(
                so_far(old(self)@, old(effects)@),
                request_id,
            ),
    {
        proof {
            reveal(cancel);
            lemma_index_of(self@.book.pending, request_id);
        }
        let may_have_executed = match self.pending(request_id) {
            Some(pending) => pending.may_have_executed,
            None => {
                return;
            },
        };
        self.remove_pending(request_id);
        let error = if may_have_executed {
            SessionError::OutcomeUnknown
        } else {
            SessionError::Cancelled
        };
        emit(effects, Effect::Failed { request_id, error });
    }

    /// The next write: controls first, then requests in the order in which they came.
    fn dispatch(&mut self, effects: &mut Vec<Effect>)
        requires
            balanced(old(self)@.book),
        ensures
            so_far(final(self)@, final(effects)@) == dispatch(so_far(old(self)@, old(effects)@)),
    {
        reveal(dispatch);
        if self.write_busy || self.state == State::Disconnected || self.state == State::Wait
            || self.state == State::Stopped {
            return;
        }
        if let Some(control) = self.controls.pop_front() {
            assert(self@.controls =~= old(self)@.controls.skip(1));
            self.write_busy = true;
            emit(effects, Effect::SendControl { generation: self.generation, control });
            return;
        }
        assert(self@.controls =~= old(self)@.controls);
        let in_flight: usize = self.in_flight_count();
        if self.state != State::Ready || in_flight >= self.config.max_in_flight_transactions {
            return;
        }
        if self.renewal == RenewalState::Draining {
            if in_flight == 0 {
                self.renewal = RenewalState::Reconnecting;
                self.fault(SessionError::Renewal, effects);
            }
            return;
        }
        let index: usize = match self.first_unsent() {
            Some(index) => index,
            None => {
                return;
            },
        };
        if self.pending[index].sequence == 0 {
            let sequence: u64 = match self.allocate_sequence() {
                Ok(sequence) => sequence,
                Err(error) => {
                    self.fail_terminal(error, effects);
                    return;
                },
            };
            let pending = &mut self.pending[index];
            pending.sequence = sequence;
            pending.message.header.sequence = sequence;
            self.mark_sent(index, effects);
        } else {
            self.mark_sent(index, effects);
        }
    }

    /// The request at `index` goes out with the sequence number that it has.
    fn mark_sent(&mut self, index: usize, effects: &mut Vec<Effect>)
        requires
            index < old(self).pending@.len(),
        ensures
            so_far(final(self)@, final(effects)@) == resent(
                so_far(old(self)@, old(effects)@),
                index as int,
            ),
    {
        let ghost before = self@;
        let request_id: u64 = self.pending[index].request_id;
        let pending = &mut self.pending[index];
        pending.sent = true;
        pending.may_have_executed = true;
        assert(self@.book.pending =~= before.book.pending.update(
            index as int,
            PendingView {
                sent: true,
                may_have_executed: true,
                ..before.book.pending[index as int]
            },
        ));
        if !contains_id(&self.replay, request_id) {
            self.replay.push(request_id);
        }
        self.write_busy = true;
        let message = self.pending[index].message.clone();
        emit(effects, Effect::SendMessage { generation: self.generation, request_id, message });
    }

    /// What a new connection says of the credential.
    fn see_credential(&mut self, credential_identity: Option<[u8; 32]>)
        ensures
            final(self)@ == credential_seen(old(self)@, identity_view(credential_identity)),
    {
        match credential_identity {
            Some(identity) => {
                let unchanged = match self.credential_identity {
                    Some(known) => crate::wire::same_bytes(known.as_slice(), identity.as_slice()),
                    None => false,
                };
                if unchanged {
                    self.credential_change = CredentialChange::Unchanged;
                } else {
                    self.candidate_credential_identity = Some(identity);
                    self.credential_change = CredentialChange::Changed;
                }
            },
            None => {
                self.candidate_credential_identity = None;
                self.credential_change = CredentialChange::Unknown;
            },
        }
    }

    /// The authenticated identity of a connection. Returns whether it is acceptable.
    fn identify(&mut self, authenticated_global_id: Option<u64>, effects: &mut Vec<Effect>) -> (r:
        bool)
        requires
            balanced(old(self)@.book),
        ensures
            (so_far(final(self)@, final(effects)@), r) == identified(
                so_far(old(self)@, old(effects)@),
                authenticated_global_id,
            ),
            balanced(final(self)@.book),
    {
        reveal(identified);
        if let Some(global_id) = authenticated_global_id {
            let identity_changed = self.authenticated_global_id != 0
                && self.authenticated_global_id != global_id;
            self.authenticated_global_id = global_id;
            if global_id > i64::MAX as u64 {
                self.fail_terminal(SessionError::Malformed, effects);
                return false;
            }
            self.config.client_ident.global_id = global_id as i64;
            if identity_changed {
                self.reset_for_new_identity(effects);
            }
        }
        true
    }

    /// The handshake of a resumed or of a new session begins.
    fn begin_handshake(&mut self, generation: u64, effects: &mut Vec<Effect>)
        requires
            balanced(old(self)@.book),
        ensures
            so_far(final(self)@, final(effects)@) == begin_handshake(
                so_far(old(self)@, old(effects)@),
                generation,
            ),
            balanced(final(self)@.book),
    {
        reveal(begin_handshake);
        if self.server_cookie != 0 {
            if self.connect_sequence == u64::MAX {
                self.fail_terminal(SessionError::TransitionLimit, effects);
                emit(effects, Effect::CloseTransport { generation });
                return;
            }
            self.connect_sequence = self.connect_sequence + 1;
            if !self.start_transport(State::Reconnecting, effects) {
                emit(effects, Effect::CloseTransport { generation });
                return;
            }
            self.queue_reconnect(effects);
        } else {
            if !self.refresh_cookie(effects) {
                emit(effects, Effect::CloseTransport { generation });
                return;
            }
            self.connect_sequence = 0;
            if !self.start_transport(State::Connecting, effects) {
                emit(effects, Effect::CloseTransport { generation });
                return;
            }
            self.queue_client_ident(effects);
        }
    }

    /// A connection was made.
    fn connected(
        &mut self,
        generation: u64,
        authenticated_global_id: Option<u64>,
        credential_identity: Option<[u8; 32]>,
        effects: &mut Vec<Effect>,
    )
        requires
            balanced(old(self)@.book),
        ensures
            so_far(final(self)@, final(effects)@) == connected(
                so_far(old(self)@, old(effects)@),
                generation,
                authenticated_global_id,
                identity_view(credential_identity),
            ),
    {
        reveal(connected);
        if generation != self.generation || !self.connect_pending {
            emit(effects, Effect::CloseTransport { generation });
            return;
        }
        self.connect_pending = false;
        self.terminal_error = None;
        self.transitions = 0;
        if self.connected_once {
            if self.global_sequence == u64::MAX {
                self.fail_terminal(SessionError::TransitionLimit, effects);
                emit(effects, Effect::CloseTransport { generation });
                return;
            }
            self.global_sequence = self.global_sequence + 1;
        }
        self.connected_once = true;
        if !self.identify(authenticated_global_id, effects) {
            emit(effects, Effect::CloseTransport { generation });
            return;
        }
        self.see_credential(credential_identity);
        self.begin_handshake(generation, effects);
    }

    /// The request that a message with this transaction id answers.
    fn answered(&self, transaction_id: u64) -> (r: Option<u64>)
        ensures
            r == answered(self@.book, transaction_id),
    {
        match self.by_transaction.get(&transaction_id) {
            Some(request_id) => match self.pending(*request_id) {
                Some(pending) => if pending.may_have_executed {
                    Some(*request_id)
                } else {
                    None
                },
                None => None,
            },
            None => None,
        }
    }

    /// A message that is new goes to the request that it answers, or to the session's owner.
    fn deliver(&mut self, message: Message, effects: &mut Vec<Effect>)
        requires
            balanced(old(self)@.book),
        ensures
            so_far(final(self)@, final(effects)@) == deliver(
                so_far(old(self)@, old(effects)@),
                message@,
            ),
    {
        reveal(deliver);
        match self.answered(message.header.transaction_id) {
            Some(request_id) => {
                self.remove_pending(request_id);
                emit(effects, Effect::Completed { request_id, reply: Some(message) });
            },
            None => {
                if self.incoming_count >= self.config.max_queued_messages {
                    self.fail_terminal(SessionError::QueueSaturated, effects);
                } else {
                    self.incoming_count = self.incoming_count + 1;
                    emit(effects, Effect::Incoming(message));
                }
            },
        }
    }

    /// A message arrived.
    fn message(&mut self, message: Message, effects: &mut Vec<Effect>)
        requires
            balanced(old(self)@.book),
        ensures
            so_far(final(self)@, final(effects)@) == receive(
                so_far(old(self)@, old(effects)@),
                message@,
            ),
    {
        reveal(receive);
        if self.state != State::Ready {
            self.fault(SessionError::Malformed, effects);
            return;
        }
        if !self.accept_acknowledgment(message.header.ack_sequence, effects) {
            return;
        }
        let sequence: u64 = message.header.sequence;
        if sequence <= self.last_inbound {
            emit(effects, Effect::Event(Event::DuplicateDropped { sequence }));
            return;
        }
        let expected: u64 = self.last_inbound + 1;
        if sequence != expected {
            emit(effects, Effect::Event(Event::SequenceGap { sequence, expected }));
        }
        self.last_inbound = sequence;
        self.trim_replay(message.header.ack_sequence);
        self.queue_control(Control::Ack(sequence), effects);
        self.deliver(message, effects);
    }
}

/// Whether one of the addresses is at the endpoint of `target`.
fn has_endpoint(
    addresses: &EntityAddrVec,
    target: &crate::protocol::address::EntityAddr,
) -> (r: bool)
    ensures
        r == (exists|i: int|
            0 <= i < addresses@.len() && same_endpoint(#[trigger] addresses@[i], target@)),
{
    let mut i: usize = 0;
    while i < addresses.0.len()
        invariant
            i <= addresses.0@.len(),
            forall|j: int| 0 <= j < i ==> !same_endpoint(#[trigger] addresses@[j], target@),
        decreases addresses.0@.len() - i,
    {
        assert(addresses@[i as int] == addresses.0@[i as int]@);
        if addresses.0[i].has_same_endpoint(target) {
            return true;
        }
        i = i + 1;
    }
    false
}

impl Machine {
    /// The peer introduces itself.
    fn server_ident(&mut self, ident: &ServerIdent, effects: &mut Vec<Effect>)
        requires
            balanced(old(self)@.book),
        ensures
            so_far(final(self)@, final(effects)@) == server_ident(
                so_far(old(self)@, old(effects)@),
                ident@,
            ),
    {
        reveal(server_ident);
        if self.state != State::Connecting {
            self.fault(SessionError::Malformed, effects);
            return;
        }
        self.count_transition();
        if self.transitions > self.config.max_handshake_transitions {
            self.fault(SessionError::TransitionLimit, effects);
            return;
        }
        if ident.required_features & !self.config.client_ident.supported_features != 0
            || self.config.client_ident.required_features & !ident.supported_features != 0 {
            self.fail_terminal(SessionError::UnsupportedFeature, effects);
            return;
        }
        if !has_endpoint(&ident.addresses, &self.config.client_ident.target_address) {
            self.fault(SessionError::Malformed, effects);
            return;
        }
        self.server_cookie = ident.cookie;
        self.server_global_id = ident.global_id;
        self.server_addresses = ident.addresses.clone();
        self.server_features = ident.supported_features;
        self.server_flags = ident.flags;
        self.fail_sent_unknown(effects);
        if self.complete_renewal(effects) {
            self.reconnect_attempts = 0;
            self.set_state(State::Ready, effects);
        }
    }

    fn retry(&mut self, connect_sequence: u64, effects: &mut Vec<Effect>)
        requires
            balanced(old(self)@.book),
        ensures
            so_far(final(self)@, final(effects)@) == retry(
                so_far(old(self)@, old(effects)@),
                connect_sequence,
            ),
    {
        reveal(retry);
        if !self.transition_allowed(State::Reconnecting, effects) {
            return;
        }
        if connect_sequence == u64::MAX {
            self.fail_terminal(SessionError::TransitionLimit, effects);
            return;
        }
        let next: u64 = connect_sequence + 1;
        self.connect_sequence = next;
        emit(effects, Effect::Event(Event::Retry { sequence: next }));
        self.queue_reconnect(effects);
    }

    fn retry_global(&mut self, global_sequence: u64, effects: &mut Vec<Effect>)
        requires
            balanced(old(self)@.book),
        ensures
            so_far(final(self)@, final(effects)@) == retry_global(
                so_far(old(self)@, old(effects)@),
                global_sequence,
            ),
    {
        reveal(retry_global);
        if !self.transition_allowed(State::Reconnecting, effects) {
            return;
        }
        let highest: u64 = if self.global_sequence > global_sequence {
            self.global_sequence
        } else {
            global_sequence
        };
        if highest == u64::MAX {
            self.fail_terminal(SessionError::TransitionLimit, effects);
            return;
        }
        let next: u64 = highest + 1;
        self.global_sequence = next;
        emit(effects, Effect::Event(Event::RetryGlobal { sequence: next }));
        self.queue_reconnect(effects);
    }

    fn wait(&mut self, effects: &mut Vec<Effect>)
        requires
            balanced(old(self)@.book),
        ensures
            so_far(final(self)@, final(effects)@) == wait(so_far(old(self)@, old(effects)@)),
    {
        proof {
            reveal(wait);
            reveal(set_state);
        }
        if self.state != State::Connecting && self.state != State::Reconnecting {
            self.fault(SessionError::Malformed, effects);
            return;
        }
        self.count_transition();
        self.set_state(State::Wait, effects);
        emit(effects, Effect::Event(Event::Wait));
        self.fault(SessionError::Disconnected, effects);
    }

    /// The peer resumes the session.
    fn reconnect_ok(&mut self, message_sequence: u64, effects: &mut Vec<Effect>)
        requires
            balanced(old(self)@.book),
        ensures
            so_far(final(self)@, final(effects)@) == reconnect_ok(
                so_far(old(self)@, old(effects)@),
                message_sequence,
            ),
    {
        reveal(reconnect_ok);
        if self.transition_allowed(State::Reconnecting, effects) && self.accept_acknowledgment(
            message_sequence,
            effects,
        ) {
            self.trim_replay(message_sequence);
            self.prepare_replay();
            if self.complete_renewal(effects) {
                self.reconnect_attempts = 0;
                self.set_state(State::Ready, effects);
                emit(
                    effects,
                    Effect::Event(Event::ReconnectOk { sequence: message_sequence }),
                );
            }
        }
    }

    fn acknowledge(&mut self, sequence: u64, effects: &mut Vec<Effect>)
        requires
            balanced(old(self)@.book),
        ensures
            so_far(final(self)@, final(effects)@) == acknowledge(
                so_far(old(self)@, old(effects)@),
                sequence,
            ),
    {
        reveal(acknowledge);
        if self.require_ready(effects) && self.accept_acknowledgment(sequence, effects) {
            self.trim_replay(sequence);
            emit(effects, Effect::Event(Event::Acknowledged { sequence }));
        }
    }

    /// A control payload arrived.
    #[verifier::rlimit(60)]
    #[verifier::spinoff_prover]
    fn control(&mut self, control: Control, effects: &mut Vec<Effect>)
        requires
            balanced(old(self)@.book),
        ensures
            so_far(final(self)@, final(effects)@) == controlled(
                so_far(old(self)@, old(effects)@),
                control@,
            ),
    {
        reveal(controlled);
        match control {
            Control::Ack(sequence) => self.acknowledge(sequence, effects),
            Control::Keepalive2(timestamp) => {
                if self.require_ready(effects) {
                    self.queue_control(Control::Keepalive2Ack(timestamp), effects);
                }
            },
            Control::Keepalive2Ack(_) => {
                if self.require_ready(effects) {
                    emit(effects, Effect::Event(Event::KeepaliveAck));
                }
            },
            Control::SessionReset(request) => {
                if self.transition_allowed(State::Reconnecting, effects) {
                    self.reset(request.full, effects);
                }
            },
            Control::SessionRetry(request) => self.retry(request.connect_sequence, effects),
            Control::SessionRetryGlobal(request) => self.retry_global(
                request.global_sequence,
                effects,
            ),
            Control::Wait => self.wait(effects),
            Control::SessionReconnectOk(reply) => self.reconnect_ok(
                reply.message_sequence,
                effects,
            ),
            Control::ServerIdent(ident) => self.server_ident(&ident, effects),
            Control::IdentMissingFeatures(_) => self.fail_terminal(
                SessionError::UnsupportedPayload,
                effects,
            ),
            _ => self.fault(SessionError::UnsupportedPayload, effects),
        }
    }

    fn stop(&mut self, effects: &mut Vec<Effect>)
        ensures
            so_far(final(self)@, final(effects)@) == stop(so_far(old(self)@, old(effects)@)),
    {
        proof {
            reveal(stop);
            reveal(set_state);
            reveal(fail_all);
        }
        if self.state == State::Stopped {
            return;
        }
        self.set_state(State::Stopped, effects);
        self.fail_all(SessionError::Closed, effects);
        self.connect_pending = false;
        emit(effects, Effect::CloseTransport { generation: self.generation });
    }

    fn renewal_due(&mut self, generation: u64, effects: &mut Vec<Effect>)
        ensures
            so_far(final(self)@, final(effects)@) == renewal_due(
                so_far(old(self)@, old(effects)@),
                generation,
            ),
    {
        reveal(renewal_due);
        if generation != self.generation {
            return;
        }
        if self.renewal == RenewalState::Idle {
            self.renewal = RenewalState::Draining;
            emit(effects, Effect::Event(Event::CredentialRenewal));
        } else {
            self.renewal_pending = RenewalPending::Yes;
        }
    }

    /// A write ended.
    fn write_complete(
        &mut self,
        generation: u64,
        request_id: Option<u64>,
        result: Result<(), SessionError>,
        effects: &mut Vec<Effect>,
    )
        requires
            balanced(old(self)@.book),
        ensures
            so_far(final(self)@, final(effects)@) == written(
                so_far(old(self)@, old(effects)@),
                generation,
                request_id,
                result,
            ),
    {
        reveal(written);
        if generation != self.generation {
            return;
        }
        self.write_busy = false;
        match result {
            Err(error) => self.fault(error, effects),
            Ok(_) => {
                if let Some(request_id) = request_id {
                    let one_way = match self.pending(request_id) {
                        Some(pending) => pending.one_way,
                        None => false,
                    };
                    if one_way {
                        self.remove_pending(request_id);
                        emit(effects, Effect::Completed { request_id, reply: None });
                    }
                }
            },
        }
    }

    /// The first connection was made before the session was started.
    fn initial_connection(
        &mut self,
        authenticated_global_id: Option<u64>,
        credential_identity: Option<[u8; 32]>,
        effects: &mut Vec<Effect>,
    )
        requires
            balanced(old(self)@.book),
        ensures
            so_far(final(self)@, final(effects)@) == next(
                so_far(old(self)@, old(effects)@),
                InputView::InitialConnection {
                    authenticated_global_id,
                    credential_identity: identity_view(credential_identity),
                },
            ),
    {
        if self.state == State::Disconnected && !self.connect_pending {
            self.connect_pending = true;
            self.connected(
                self.generation,
                authenticated_global_id,
                credential_identity,
                effects,
            );
        }
    }

    /// A connection could not be made.
    fn connect_failed(&mut self, generation: u64, effects: &mut Vec<Effect>)
        requires
            balanced(old(self)@.book),
        ensures
            so_far(final(self)@, final(effects)@) == next(
                so_far(old(self)@, old(effects)@),
                InputView::ConnectFailed { generation },
            ),
    {
        if generation == self.generation && self.connect_pending {
            self.connect_pending = false;
            emit(
                effects,
                Effect::Event(Event::TransportFault(SessionError::Disconnected)),
            );
            self.begin_reconnect(effects);
        }
    }

    fn initial_identity(
        &mut self,
        generation: u64,
        authenticated_global_id: Option<u64>,
        credential_identity: Option<[u8; 32]>,
    )
        ensures
            forall|out: Seq<EffectView>|
                (Trace { m: final(self)@, out }) == #[trigger] next(
                    Trace { m: old(self)@, out },
                    InputView::InitialIdentity {
                        generation,
                        authenticated_global_id,
                        credential_identity: identity_view(credential_identity),
                    },
                ),
    {
        if generation == self.generation && self.state == State::Ready {
            if let Some(global_id) = authenticated_global_id {
                self.authenticated_global_id = global_id;
            }
            self.credential_identity = credential_identity;
        }
    }

    /// Takes an input and adds the effects that it asks for.
    #[verifier::rlimit(60)]
    #[verifier::spinoff_prover]
    fn take(&mut self, input: Input, effects: &mut Vec<Effect>)
        requires
            balanced(old(self)@.book),
        ensures
            so_far(final(self)@, final(effects)@) == next(
                so_far(old(self)@, old(effects)@),
                input@,
            ),
    {
        match input {
            Input::Start { ready } => self.start(ready, effects),
            Input::InitialConnection { authenticated_global_id, credential_identity } => {
                self.initial_connection(authenticated_global_id, credential_identity, effects)
            },
            Input::InitialIdentity {
                generation,
                authenticated_global_id,
                credential_identity,
            } => self.initial_identity(generation, authenticated_global_id, credential_identity),
            Input::Admit { request_id, message, one_way } => self.admit_request(
                request_id,
                message,
                one_way,
                effects,
            ),
            Input::Cancel { request_id } => self.cancel(request_id, effects),
            Input::Dispatch => self.dispatch(effects),
            Input::WriteComplete { generation, request_id, result } => self.write_complete(
                generation,
                request_id,
                result,
                effects,
            ),
            Input::Connected { generation, authenticated_global_id, credential_identity } => {
                self.connected(generation, authenticated_global_id, credential_identity, effects)
            },
            Input::ConnectFailed { generation } => self.connect_failed(generation, effects),
            Input::Control { generation, control } => {
                if generation == self.generation {
                    self.control(control, effects);
                }
            },
            Input::Message { generation, message } => {
                if generation == self.generation {
                    self.message(message, effects);
                }
            },
            Input::Fault { generation, error } => {
                if generation == self.generation {
                    self.fault(error, effects);
                }
            },
            Input::RenewalDue { generation } => self.renewal_due(generation, effects),
            Input::ConsumeIncoming => {
                if self.incoming_count > 0 {
                    self.incoming_count = self.incoming_count - 1;
                }
            },
            Input::Stop => self.stop(effects),
        }
    }

    /// Takes an input and returns the effects that it asks for.
    pub fn step(&mut self, input: Input) -> (r: Vec<Effect>)
        requires
            balanced(old(self)@.book),
        ensures
            so_far(final(self)@, r@) == stepped(old(self)@, input@),
            balanced(final(self)@.book),
            within(old(self)@) ==> within(final(self)@),
    {
        proof {
            law_step_keeps_the_books(self@, input@);
        }
        let mut effects: Vec<Effect> = Vec::new();
        assert(effects_view(effects@) =~= Seq::empty());
        self.take(input, &mut effects);
        effects
    }

    pub fn limits(&self) -> (r: Limits)
        ensures
            r == self@.config.limits,
    {
        self.config.limits
    }

    pub fn queue_limit(&self) -> (r: usize)
        ensures
            r == self@.config.max_queued_messages,
    {
        self.config.max_queued_messages
    }

    pub fn snapshot(&self) -> (r: Snapshot)
        ensures
            r.state == self.state,
            r.generation == self.generation,
            r.next_outbound_sequence == (match self.next_outbound {
                Some(next) => next,
                None => 0,
            }),
            r.last_inbound_sequence == self.last_inbound,
            r.next_transaction_id == (match self.next_transaction_id {
                Some(next) => next,
                None => 0,
            }),
            r.client_cookie == self.client_cookie,
            r.server_cookie == self.server_cookie,
            r.server_global_id == self.server_global_id,
            r.server_addresses@ == self.server_addresses@,
            r.server_features == self.server_features,
            r.global_sequence == self.global_sequence,
            r.connect_sequence == self.connect_sequence,
            r.queued == self.pending@.len() - sent_count(self@.book.pending),
            r.in_flight == sent_count(self@.book.pending),
            r.replay == self.replay@.len(),
            r.retained_bytes == self.retained_bytes,
            r.reconnect_attempts == self.reconnect_attempts,
            r.handshake_transitions == self.transitions,
            r.dropped_events == 0,
    {
        let in_flight: usize = self.in_flight_count();
        Snapshot {
            state: self.state,
            generation: self.generation,
            next_outbound_sequence: match self.next_outbound {
                Some(next) => next,
                None => 0,
            },
            last_inbound_sequence: self.last_inbound,
            next_transaction_id: match self.next_transaction_id {
                Some(next) => next,
                None => 0,
            },
            client_cookie: self.client_cookie,
            server_cookie: self.server_cookie,
            server_global_id: self.server_global_id,
            server_addresses: self.server_addresses.clone(),
            server_features: self.server_features,
            global_sequence: self.global_sequence,
            connect_sequence: self.connect_sequence,
            queued: self.pending.len() - in_flight,
            in_flight,
            replay: self.replay.len(),
            retained_bytes: self.retained_bytes,
            reconnect_attempts: self.reconnect_attempts,
            handshake_transitions: self.transitions,
            dropped_events: 0,
        }
    }
}

/// Whether a request is among `ids`.
fn contains_id(ids: &Vec<u64>, id: u64) -> (r: bool)
    ensures
        r == ids@.contains(id),
{
    let mut i: usize = 0;
    while i < ids.len()
        invariant
            i <= ids@.len(),
            forall|j: int| 0 <= j < i ==> ids@[j] != id,
        decreases ids@.len() - i,
    {
        if ids[i] == id {
            assert(ids@.contains(id));
            return true;
        }
        i = i + 1;
    }
    false
}

fn retain_other(ids: &mut Vec<u64>, id: u64)
    ensures
        final(ids)@ == without(old(ids)@, id),
{
    let mut rest: Vec<u64> = Vec::new();
    let mut i: usize = 0;
    assert(rest@ =~= without(ids@.take(0), id));
    while i < ids.len()
        invariant
            i <= ids@.len(),
            ids@ == old(ids)@,
            rest@ == without(ids@.take(i as int), id),
        decreases ids@.len() - i,
    {
        assert(ids@.take(i + 1).drop_last() =~= ids@.take(i as int));
        if ids[i] != id {
            rest.push(ids[i]);
        }
        i = i + 1;
    }
    assert(ids@.take(i as int) =~= ids@);
    *ids = rest;
}

// ---------------------------------------------------------------------------
// Views
// ---------------------------------------------------------------------------

/// What stands for a value of this type has its fields.
pub proof fn law_config_has_its_fields(x: Config)
    ensures
        x@.limits == x.limits,
        x@.max_queued_messages == x.max_queued_messages,
        x@.max_retained_bytes == x.max_retained_bytes,
        x@.max_in_flight_transactions == x.max_in_flight_transactions,
        x@.max_reconnect_attempts == x.max_reconnect_attempts,
        x@.max_handshake_transitions == x.max_handshake_transitions,
        x@.reconnect_policy == x.reconnect_policy,
        x@.client_ident == x.client_ident@,
        x@.client_cookie == x.client_cookie,
        x@.server_cookie == x.server_cookie,
        x@.global_sequence == x.global_sequence,
        x@.connect_sequence == x.connect_sequence,
        x@.replacement_cookies == x.replacement_cookies@,
{
}

/// What stands for a value of this type is its case, with what it holds.
pub proof fn law_input_is_its_case(x: &Input)
    ensures
        x@ == (match *x {
                Input::Start { ready } => InputView::Start { ready },
                Input::InitialConnection { authenticated_global_id, credential_identity } => {
                    InputView::InitialConnection {
                        authenticated_global_id,
                        credential_identity: identity_view(credential_identity),
                    }
                },
                Input::InitialIdentity {
                    generation,
                    authenticated_global_id,
                    credential_identity,
                } => InputView::InitialIdentity {
                    generation,
                    authenticated_global_id,
                    credential_identity: identity_view(credential_identity),
                },
                Input::Admit { request_id, message, one_way } => InputView::Admit {
                    request_id,
                    message: message@,
                    one_way,
                },
                Input::Cancel { request_id } => InputView::Cancel { request_id },
                Input::Dispatch => InputView::Dispatch,
                Input::WriteComplete { generation, request_id, result } => InputView::WriteComplete {
                    generation,
                    request_id,
                    result,
                },
                Input::Connected { generation, authenticated_global_id, credential_identity } => {
                    InputView::Connected {
                        generation,
                        authenticated_global_id,
                        credential_identity: identity_view(credential_identity),
                    }
                },
                Input::ConnectFailed { generation } => InputView::ConnectFailed { generation },
                Input::Control { generation, control } => InputView::Control {
                    generation,
                    control: control@,
                },
                Input::Message { generation, message } => InputView::Message {
                    generation,
                    message: message@,
                },
                Input::Fault { generation, error } => InputView::Fault { generation, error },
                Input::RenewalDue { generation } => InputView::RenewalDue { generation },
                Input::ConsumeIncoming => InputView::ConsumeIncoming,
                Input::Stop => InputView::Stop,
            }),
{
}

/// What stands for a value of this type is its case, with what it holds.
pub proof fn law_effect_is_its_case(x: &Effect)
    ensures
        x@ == (match *x {
                Effect::Connect { generation } => EffectView::Connect { generation },
                Effect::CloseTransport { generation } => EffectView::CloseTransport { generation },
                Effect::SendControl { generation, control } => EffectView::SendControl {
                    generation,
                    control: control@,
                },
                Effect::SendMessage { generation, request_id, message } => EffectView::SendMessage {
                    generation,
                    request_id,
                    message: message@,
                },
                Effect::Admitted { request_id, transaction_id } => EffectView::Admitted {
                    request_id,
                    transaction_id,
                },
                Effect::Completed { request_id, reply } => EffectView::Completed {
                    request_id,
                    reply: reply_view(reply),
                },
                Effect::Failed { request_id, error } => EffectView::Failed { request_id, error },
                Effect::Incoming(message) => EffectView::Incoming(message@),
                Effect::Event(event) => EffectView::Event(event),
                Effect::Terminal(error) => EffectView::Terminal(error),
            }),
{
}

/// What stands for a value of this type has its fields.
pub proof fn law_pending_has_its_fields(x: Pending)
    ensures
        x@.request_id == x.request_id,
        x@.message == x.message@,
        x@.bytes == x.bytes,
        x@.sequence == x.sequence,
        x@.sent == x.sent,
        x@.may_have_executed == x.may_have_executed,
        x@.one_way == x.one_way,
{
}

/// What stands for a value of this type has its fields.
pub proof fn law_machine_has_its_fields(x: Machine)
    ensures
        x@.config == x.config@,
        x@.state == x.state,
        x@.generation == x.generation,
        x@.book == (Book { pending: pending_view(x.pending@), by_transaction: x.by_transaction@, replay: x.replay@, retained_bytes: x.retained_bytes, }),
        x@.controls == (controls_view(x.controls@)),
        x@.incoming_count == x.incoming_count,
        x@.write_busy == x.write_busy,
        x@.next_outbound == x.next_outbound,
        x@.last_inbound == x.last_inbound,
        x@.next_transaction_id == x.next_transaction_id,
        x@.client_cookie == x.client_cookie,
        x@.server_cookie == x.server_cookie,
        x@.server_global_id == x.server_global_id,
        x@.server_addresses == x.server_addresses@,
        x@.server_features == x.server_features,
        x@.global_sequence == x.global_sequence,
        x@.connect_sequence == x.connect_sequence,
        x@.authenticated_global_id == x.authenticated_global_id,
        x@.credential_identity == (identity_view(x.credential_identity)),
        x@.candidate_credential_identity == (identity_view(x.candidate_credential_identity)),
        x@.credential_change == x.credential_change,
        x@.renewal == x.renewal,
        x@.renewal_pending == x.renewal_pending,
        x@.server_flags == x.server_flags,
        x@.connected_once == x.connected_once,
        x@.reconnect_attempts == x.reconnect_attempts,
        x@.transitions == x.transitions,
        x@.connect_pending == x.connect_pending,
        x@.terminal_error == x.terminal_error,
        x@.replacement_cookies == x.replacement_cookies@,
{
}

/// What stands for a list has what stands for each of its items, in order.
pub proof fn law_effects_view_keeps_order(effects: Seq<Effect>, i: int)
    requires
        0 <= i < effects.len(),
    ensures
        effects_view(effects).len() == effects.len(),
        effects_view(effects)[i] == effects[i]@,
{
}

/// What stands for a list has what stands for each of its items, in order.
pub proof fn law_pending_view_keeps_order(pending: Seq<Pending>, i: int)
    requires
        0 <= i < pending.len(),
    ensures
        pending_view(pending).len() == pending.len(),
        pending_view(pending)[i] == pending[i]@,
{
}

/// What stands for a list has what stands for each of its items, in order.
pub proof fn law_controls_view_keeps_order(controls: Seq<Control>, i: int)
    requires
        0 <= i < controls.len(),
    ensures
        controls_view(controls).len() == controls.len(),
        controls_view(controls)[i] == controls[i]@,
{
}

} // verus!
