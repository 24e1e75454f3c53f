//! The client of the monitors: which monitor to turn to, what to subscribe to, and which of the
//! maps that arrive to take.
//!
//! The maps themselves stay with the caller. An [`Owner`] knows their epochs, says which message
//! holds which maps, and takes what was found in them.

use crate::maps::{Fsid, Limits as MapLimits, MapError};
use crate::mon::messages::{
    ack_decoding, batch_decoding, batch_fault, decode_mgrmap_message, decode_monmap_message,
    decode_osdmap_batch, decode_subscribe_ack, encode_subscribe, front_fault, monmap_decoding,
    subscribe_encoding, validate_batch_maps, BatchView, MapIdentity, MessageError, MessageLimits,
    OSDMapBatch, Subscription, Subscriptions, MESSAGE_MGR_MAP, MESSAGE_MON_MAP,
    MESSAGE_MON_SUBSCRIBE_ACK, MESSAGE_OSD_MAP, SUBSCRIBE_ONCE,
};
use crate::mon::seeds::{endpoints_view, Endpoint, EndpointView, SocketAddress};
use crate::msgr::message::{Message, MessageView};
use crate::msgr::session_model::SessionError;
use crate::sorting::{name_order, named_view, sort_named};
use crate::types::Span;
use vstd::prelude::*;

verus! {

/// Why the client, a session or a message failed.
#[derive(Clone, Copy, Debug, PartialEq, Eq)]
pub enum MonitorError {
    Closed,
    InvalidConfig,
    ConnectTimeout,
    AttemptsExhausted,
    ForeignCluster,
    IdentityUnavailable,
    MapGap,
    Session(SessionError),
    Message(MessageError),
    BadMap(MapError),
}

/// What a client is made with.
#[derive(Clone, Debug)]
pub struct MonitorConfig {
    pub seeds: Vec<Endpoint>,
    pub expected_fsid: Option<Fsid>,
    pub hostname: String,
    pub map_limits: MapLimits,
    pub message_limits: MessageLimits,
    pub max_seed_attempts: usize,
    pub history_limit: usize,
    pub operation_timeout: Span,
    pub retry_delay: Span,
    pub subscribe_period: Span,
    pub error_capacity: usize,
}

#[verifier::ext_equal]
pub struct ConfigView {
    pub seeds: Seq<EndpointView>,
    pub expected_fsid: Option<Seq<u8>>,
    pub hostname: Seq<char>,
    pub map_limits: MapLimits,
    pub message_limits: MessageLimits,
    pub max_seed_attempts: usize,
    pub history_limit: usize,
    pub operation_timeout: Span,
    pub retry_delay: Span,
    pub subscribe_period: Span,
    pub error_capacity: usize,
}

pub open spec fn fsid_view(fsid: Option<Fsid>) -> Option<Seq<u8>> {
    match fsid {
        Some(fsid) => Some(fsid@),
        None => None,
    }
}

impl View for MonitorConfig {
    type V = ConfigView;

    open spec fn view(&self) -> ConfigView {
        ConfigView {
            seeds: endpoints_view(self.seeds@),
            expected_fsid: fsid_view(self.expected_fsid),
            hostname: self.hostname@,
            map_limits: self.map_limits,
            message_limits: self.message_limits,
            max_seed_attempts: self.max_seed_attempts,
            history_limit: self.history_limit,
            operation_timeout: self.operation_timeout,
            retry_delay: self.retry_delay,
            subscribe_period: self.subscribe_period,
            error_capacity: self.error_capacity,
        }
    }
}

pub open spec fn zero(span: Span) -> bool {
    span.seconds == 0 && span.nanoseconds == 0
}

fn is_zero(span: Span) -> (r: bool)
    ensures
        r == zero(span),
{
    span.seconds == 0 && span.nanoseconds == 0
}

/// Whether a client can work with a configuration: all bounds but those on retries and on history
/// are above zero.
pub open spec fn workable(c: ConfigView) -> bool {
    &&& c.seeds.len() > 0
    &&& c.max_seed_attempts > 0
    &&& !zero(c.operation_timeout)
    &&& !zero(c.subscribe_period)
    &&& c.error_capacity > 0
    &&& c.message_limits.max_bytes > 0
    &&& c.message_limits.max_maps > 0
    &&& c.map_limits.max_bytes > 0
    &&& c.map_limits.max_monitors > 0
    &&& c.map_limits.max_addresses > 0
    &&& c.map_limits.max_locations > 0
    &&& c.map_limits.max_pools > 0
    &&& c.map_limits.max_osds > 0
    &&& c.map_limits.max_pg_mappings > 0
    &&& c.map_limits.max_collection_entries > 0
}

impl MonitorConfig {
    pub fn validate(&self) -> (r: Result<(), MonitorError>)
        ensures
            match r {
                Ok(()) => workable(self@),
                Err(error) => !workable(self@) && error == MonitorError::InvalidConfig,
            },
    {
        if self.seeds.len() == 0 || self.max_seed_attempts == 0 || is_zero(self.operation_timeout)
            || is_zero(self.subscribe_period) || self.error_capacity == 0
            || self.message_limits.max_bytes == 0 || self.message_limits.max_maps == 0
            || self.map_limits.max_bytes == 0 || self.map_limits.max_monitors == 0
            || self.map_limits.max_addresses == 0 || self.map_limits.max_locations == 0
            || self.map_limits.max_pools == 0 || self.map_limits.max_osds == 0
            || self.map_limits.max_pg_mappings == 0 || self.map_limits.max_collection_entries == 0 {
            return Err(MonitorError::InvalidConfig);
        }
        Ok(())
    }
}

/// What is known of the cluster: its identity, this client's id, and the epochs of the maps. Each
/// state that is published has a greater generation than the one before it.
#[derive(Clone, Copy, Debug, PartialEq, Eq)]
pub struct MonitorState {
    pub generation: u64,
    pub connected_fsid: Option<Fsid>,
    pub global_id: Option<u64>,
    pub monmap: Option<u32>,
    pub osdmap: Option<u32>,
    pub mgrmap: Option<u32>,
}

#[verifier::ext_equal]
pub struct StateView {
    pub generation: u64,
    pub connected_fsid: Option<Seq<u8>>,
    pub global_id: Option<u64>,
    pub monmap: Option<u32>,
    pub osdmap: Option<u32>,
    pub mgrmap: Option<u32>,
}

impl View for MonitorState {
    type V = StateView;

    open spec fn view(&self) -> StateView {
        StateView {
            generation: self.generation,
            connected_fsid: fsid_view(self.connected_fsid),
            global_id: self.global_id,
            monmap: self.monmap,
            osdmap: self.osdmap,
            mgrmap: self.mgrmap,
        }
    }
}

impl Default for MonitorState {
    fn default() -> (r: Self)
        ensures
            r@ == unknown(None),
    {
        MonitorState {
            generation: 0,
            connected_fsid: None,
            global_id: None,
            monmap: None,
            osdmap: None,
            mgrmap: None,
        }
    }
}

/// The state in which nothing is known but perhaps an identity.
pub open spec fn unknown(connected_fsid: Option<Seq<u8>>) -> StateView {
    StateView {
        generation: 0,
        connected_fsid,
        global_id: None,
        monmap: None,
        osdmap: None,
        mgrmap: None,
    }
}

/// Whether a state has all that requests to the cluster need.
pub open spec fn complete(s: StateView) -> bool {
    s.connected_fsid is Some && s.monmap is Some && s.osdmap is Some
}

impl MonitorState {
    pub fn generation(&self) -> (r: u64)
        ensures
            r == self@.generation,
    {
        self.generation
    }

    pub fn connected_fsid(&self) -> (r: Option<Fsid>)
        ensures
            fsid_view(r) == self@.connected_fsid,
    {
        self.connected_fsid
    }

    pub fn global_id(&self) -> (r: Option<u64>)
        ensures
            r == self@.global_id,
    {
        self.global_id
    }

    pub fn ready(&self) -> (r: bool)
        ensures
            r == complete(self@),
    {
        self.connected_fsid.is_some() && self.monmap.is_some() && self.osdmap.is_some()
    }
}

/// The names and numbers of the pools of a map, in the order of the names, and of the numbers where
/// names are equal. Without a map there are none.
pub fn list_pools(pools: Option<Vec<(String, i64)>>) -> (r: Vec<(String, i64)>)
    ensures
        named_view(r@) == match pools {
            Some(pools) => named_view(pools@).sort_by(name_order()),
            None => Seq::empty(),
        },
{
    match pools {
        Some(pools) => sort_named(pools),
        None => {
            let none: Vec<(String, i64)> = Vec::new();
            assert(named_view(none@) =~= Seq::empty());
            none
        },
    }
}

/// What a wait for a complete state comes to, given how the client ended if it has. Without a
/// result it goes on.
pub fn wait_ready(state: &MonitorState, terminal: Option<MonitorError>) -> (r: Option<
    Result<(), MonitorError>,
>)
    ensures
        r == if complete(state@) {
            Some(Ok::<(), MonitorError>(()))
        } else {
            match terminal {
                Some(error) => Some(Err(error)),
                None => None,
            }
        },
{
    if state.ready() {
        return Some(Ok(()));
    }
    match terminal {
        Some(error) => Some(Err(error)),
        None => None,
    }
}

/// What a wait for a map after an epoch comes to. Without a result it goes on.
pub fn refresh_osdmap(state: &MonitorState, after: u32, terminal: Option<MonitorError>) -> (r:
    Option<Result<(), MonitorError>>)
    ensures
        r == if state@.osdmap matches Some(epoch) && epoch > after {
            Some(Ok::<(), MonitorError>(()))
        } else {
            match terminal {
                Some(error) => Some(Err(error)),
                None => None,
            }
        },
{
    if let Some(epoch) = state.osdmap {
        if epoch > after {
            return Some(Ok(()));
        }
    }
    match terminal {
        Some(error) => Some(Err(error)),
        None => None,
    }
}

// ---------------------------------------------------------------------------
// The owner of the state
// ---------------------------------------------------------------------------

/// The state of a client: the state that is being built, the one that was published last and those
/// before it, the newest first, the seed to turn to next, the identity of the cluster once it is
/// known, the epoch that a full map must have to end a refresh, and the seeds that turned out to be
/// of other clusters.
#[derive(Debug)]
pub struct Owner {
    pub config: MonitorConfig,
    pub next_seed: usize,
    pub pinned_fsid: Option<Fsid>,
    pub state: MonitorState,
    pub published: MonitorState,
    pub history: Vec<MonitorState>,
    pub refresh_epoch: Option<u32>,
    pub foreign_seeds: Vec<SocketAddress>,
}

#[verifier::ext_equal]
pub struct OwnerView {
    pub config: ConfigView,
    pub next_seed: int,
    pub pinned_fsid: Option<Seq<u8>>,
    pub state: StateView,
    pub published: StateView,
    pub history: Seq<StateView>,
    pub refresh_epoch: Option<u32>,
    pub foreign_seeds: Seq<SocketAddress>,
}

pub open spec fn states_view(s: Seq<MonitorState>) -> Seq<StateView> {
    Seq::new(s.len(), |i: int| s[i]@)
}

impl View for Owner {
    type V = OwnerView;

    open spec fn view(&self) -> OwnerView {
        OwnerView {
            config: self.config@,
            next_seed: self.next_seed as int,
            pinned_fsid: fsid_view(self.pinned_fsid),
            state: self.state@,
            published: self.published@,
            history: states_view(self.history@),
            refresh_epoch: self.refresh_epoch,
            foreign_seeds: self.foreign_seeds@,
        }
    }
}

/// An owner at the start. What it publishes is the expected identity alone.
pub open spec fn started(config: ConfigView) -> OwnerView {
    OwnerView {
        config,
        next_seed: 0,
        pinned_fsid: config.expected_fsid,
        state: unknown(None),
        published: unknown(config.expected_fsid),
        history: Seq::empty(),
        refresh_epoch: None,
        foreign_seeds: Seq::empty(),
    }
}

/// The first states of a history that holds at most `limit`.
pub open spec fn bounded_history(history: Seq<StateView>, limit: nat) -> Seq<StateView> {
    if history.len() > limit {
        history.take(limit as int)
    } else {
        history
    }
}

/// Publishes the state under the next generation. The one that was published before goes into the
/// history, unless it was the first.
pub open spec fn publishing(o: OwnerView) -> OwnerView {
    let generation = if o.state.generation == u64::MAX {
        u64::MAX
    } else {
        (o.state.generation + 1) as u64
    };
    let next = StateView { generation, ..o.state };
    let history = if o.config.history_limit != 0 && o.published.generation != 0 {
        bounded_history(seq![o.published] + o.history, o.config.history_limit as nat)
    } else {
        o.history
    };
    OwnerView { state: next, published: next, history, ..o }
}

/// Whether a cluster is not the one that the client works with.
pub open spec fn foreign(o: OwnerView, fsid: Seq<u8>) -> bool {
    o.pinned_fsid matches Some(expected) && expected != fsid
}

/// The owner after it took an identity that is not foreign.
pub open spec fn pinning(o: OwnerView, fsid: Seq<u8>) -> OwnerView {
    OwnerView {
        pinned_fsid: Some(fsid),
        state: StateView { connected_fsid: Some(fsid), ..o.state },
        ..o
    }
}

/// Whether a map is newer than the one at hand.
pub open spec fn newer(current: Option<u32>, epoch: u32) -> bool {
    match current {
        Some(at) => epoch > at,
        None => true,
    }
}

fn is_newer(current: Option<u32>, epoch: u32) -> (r: bool)
    ensures
        r == newer(current, epoch),
{
    match current {
        Some(at) => epoch > at,
        None => true,
    }
}

impl Owner {
    pub open spec fn wf(self) -> bool {
        &&& self.config.seeds@.len() > 0
        &&& self.next_seed < self.config.seeds@.len()
        &&& self.foreign_seeds@.no_duplicates()
    }

    /// An owner at the start, for a configuration that can work.
    pub fn new(config: MonitorConfig) -> (r: Result<Self, MonitorError>)
        ensures
            match r {
                Ok(owner) => workable(config@) && owner.wf() && owner@ == started(config@),
                Err(error) => !workable(config@) && error == MonitorError::InvalidConfig,
            },
    {
        match config.validate() {
            Ok(()) => {},
            Err(error) => {
                return Err(error);
            },
        }
        let published = MonitorState {
            generation: 0,
            connected_fsid: config.expected_fsid,
            global_id: None,
            monmap: None,
            osdmap: None,
            mgrmap: None,
        };
        let owner = Owner {
            next_seed: 0,
            pinned_fsid: config.expected_fsid,
            config,
            state: MonitorState::default(),
            published,
            history: Vec::new(),
            refresh_epoch: None,
            foreign_seeds: Vec::new(),
        };
        assert(owner@ =~= started(config@));
        Ok(owner)
    }

    fn publish(&mut self)
        requires
            old(self).wf(),
        ensures
            final(self).wf(),
            final(self)@ == publishing(old(self)@),
    {
        if self.state.generation < u64::MAX {
            self.state.generation = self.state.generation + 1;
        }
        if self.config.history_limit != 0 && self.published.generation != 0 {
            let previous = self.published;
            let ghost held = states_view(self.history@);
            self.history.insert(0, previous);
            assert(states_view(self.history@) =~= seq![previous@] + held);
            let ghost longer = states_view(self.history@);
            self.history.truncate(self.config.history_limit);
            assert(states_view(self.history@) =~= bounded_history(
                longer,
                self.config.history_limit as nat,
            ));
        }
        self.published = self.state;
        assert(self@ =~= publishing(old(self)@));
    }

    fn pin_fsid(&mut self, fsid: Fsid) -> (r: Result<(), MonitorError>)
        requires
            old(self).wf(),
        ensures
            final(self).wf(),
            match r {
                Ok(()) => !foreign(old(self)@, fsid@) && final(self)@ == pinning(
                    old(self)@,
                    fsid@,
                ),
                Err(error) => foreign(old(self)@, fsid@) && *final(self) == *old(self) && error
                    == MonitorError::ForeignCluster,
            },
    {
        if let Some(expected) = self.pinned_fsid {
            if !expected.same(&fsid) {
                return Err(MonitorError::ForeignCluster);
            }
        }
        self.pinned_fsid = Some(fsid);
        self.state.connected_fsid = Some(fsid);
        assert(self@ =~= pinning(old(self)@, fsid@));
        Ok(())
    }
}

// ---------------------------------------------------------------------------
// Messages
// ---------------------------------------------------------------------------

/// What to do after a message was taken.
#[derive(Clone, Copy, Debug, PartialEq, Eq, Structural)]
pub enum MessageAction {
    Nothing,
    Resubscribe,
}

/// What a message holds that has yet to be read: nothing, an encoded map, or several.
#[derive(Debug)]
pub enum Delivery {
    Handled,
    MonMap(Vec<u8>),
    OsdMaps(OSDMapBatch),
    MgrMap(Vec<u8>),
}

#[verifier::ext_equal]
pub enum DeliveryView {
    Handled,
    MonMap(Seq<u8>),
    OsdMaps(BatchView),
    MgrMap(Seq<u8>),
}

impl View for Delivery {
    type V = DeliveryView;

    open spec fn view(&self) -> DeliveryView {
        match self {
            Delivery::Handled => DeliveryView::Handled,
            Delivery::MonMap(bytes) => DeliveryView::MonMap(bytes@),
            Delivery::OsdMaps(batch) => DeliveryView::OsdMaps(batch@),
            Delivery::MgrMap(bytes) => DeliveryView::MgrMap(bytes@),
        }
    }
}

pub open spec fn delivery_view(r: Result<Delivery, MonitorError>) -> Result<
    DeliveryView,
    MonitorError,
> {
    match r {
        Ok(delivery) => Ok(delivery@),
        Err(error) => Err(error),
    }
}

/// The owner and the outcome after a message. An acknowledgement says which cluster this is; a map
/// of managers needs that to be known.
pub open spec fn handling(o: OwnerView, m: MessageView) -> (
    OwnerView,
    Result<DeliveryView, MonitorError>,
) {
    let limits = o.config.map_limits;
    if m.header.message_type == MESSAGE_MON_SUBSCRIBE_ACK {
        match ack_decoding(m, o.config.message_limits.max_bytes) {
            Err(error) => (o, Err(MonitorError::Message(error))),
            Ok((_, fsid)) => if foreign(o, fsid) {
                (o, Err(MonitorError::ForeignCluster))
            } else {
                (publishing(pinning(o, fsid)), Ok(DeliveryView::Handled))
            },
        }
    } else if m.header.message_type == MESSAGE_MON_MAP {
        match monmap_decoding(m, limits) {
            Err(error) => (o, Err(MonitorError::Message(error))),
            Ok(bytes) => (o, Ok(DeliveryView::MonMap(bytes))),
        }
    } else if m.header.message_type == MESSAGE_OSD_MAP {
        match batch_decoding(m, o.config.message_limits) {
            Err(error) => (o, Err(MonitorError::Message(error))),
            Ok(batch) => (o, Ok(DeliveryView::OsdMaps(batch))),
        }
    } else if m.header.message_type == MESSAGE_MGR_MAP {
        if o.pinned_fsid is None {
            (o, Err(MonitorError::IdentityUnavailable))
        } else {
            match front_fault(m, MESSAGE_MGR_MAP, limits.max_bytes) {
                Some(error) => (o, Err(MonitorError::Message(error))),
                None => if m.header.version != 1 || m.header.compat_version != 1 {
                    (o, Err(MonitorError::Message(MessageError::UnsupportedVersion)))
                } else {
                    (o, Ok(DeliveryView::MgrMap(m.front)))
                },
            }
        }
    } else {
        (o, Ok(DeliveryView::Handled))
    }
}

/// The owner and the outcome after the monitor map of a cluster and an epoch was found.
pub open spec fn monmap_taken(o: OwnerView, fsid: Seq<u8>, epoch: u32) -> (
    OwnerView,
    Result<MessageAction, MonitorError>,
) {
    if foreign(o, fsid) {
        (o, Err(MonitorError::ForeignCluster))
    } else {
        let p = pinning(o, fsid);
        if newer(p.state.monmap, epoch) {
            (
                publishing(
                    OwnerView { state: StateView { monmap: Some(epoch), ..p.state }, ..p },
                ),
                Ok(MessageAction::Nothing),
            )
        } else {
            (p, Ok(MessageAction::Nothing))
        }
    }
}

/// The owner after the manager map of an epoch was found.
pub open spec fn mgrmap_taken(o: OwnerView, epoch: u32) -> OwnerView {
    if newer(o.state.mgrmap, epoch) {
        publishing(OwnerView { state: StateView { mgrmap: Some(epoch), ..o.state }, ..o })
    } else {
        o
    }
}

impl Owner {
    fn handle_ack(&mut self, message: &Message) -> (r: Result<Delivery, MonitorError>)
        requires
            old(self).wf(),
            message@.header.message_type == MESSAGE_MON_SUBSCRIBE_ACK,
        ensures
            final(self).wf(),
            (final(self)@, delivery_view(r)) == handling(old(self)@, message@),
    {
        match decode_subscribe_ack(message, self.config.message_limits.max_bytes) {
            Err(error) => Err(MonitorError::Message(error)),
            Ok(ack) => {
                match self.pin_fsid(ack.fsid) {
                    Err(error) => Err(error),
                    Ok(()) => {
                        self.publish();
                        Ok(Delivery::Handled)
                    },
                }
            },
        }
    }

    /// Takes a message.
    pub fn handle_message(&mut self, message: &Message) -> (r: Result<Delivery, MonitorError>)
        requires
            old(self).wf(),
        ensures
            final(self).wf(),
            (final(self)@, delivery_view(r)) == handling(old(self)@, message@),
    {
        let message_type: u16 = message.header.message_type;
        if message_type == MESSAGE_MON_SUBSCRIBE_ACK {
            self.handle_ack(message)
        } else if message_type == MESSAGE_MON_MAP {
            match decode_monmap_message(message, self.config.map_limits) {
                Err(error) => Err(MonitorError::Message(error)),
                Ok(bytes) => Ok(Delivery::MonMap(bytes)),
            }
        } else if message_type == MESSAGE_OSD_MAP {
            match decode_osdmap_batch(message, self.config.message_limits) {
                Err(error) => Err(MonitorError::Message(error)),
                Ok(batch) => Ok(Delivery::OsdMaps(batch)),
            }
        } else if message_type == MESSAGE_MGR_MAP {
            if self.pinned_fsid.is_none() {
                return Err(MonitorError::IdentityUnavailable);
            }
            match decode_mgrmap_message(message, self.config.map_limits) {
                Err(error) => Err(MonitorError::Message(error)),
                Ok(bytes) => Ok(Delivery::MgrMap(bytes)),
            }
        } else {
            Ok(Delivery::Handled)
        }
    }

    /// Takes the monitor map of a cluster and an epoch.
    pub fn take_monmap(&mut self, fsid: Fsid, epoch: u32) -> (r: Result<
        MessageAction,
        MonitorError,
    >)
        requires
            old(self).wf(),
        ensures
            final(self).wf(),
            (final(self)@, r) == monmap_taken(old(self)@, fsid@, epoch),
    {
        match self.pin_fsid(fsid) {
            Err(error) => Err(error),
            Ok(()) => {
                if is_newer(self.state.monmap, epoch) {
                    let ghost p = self@;
                    self.state.monmap = Some(epoch);
                    assert(self@ =~= (OwnerView {
                        state: StateView { monmap: Some(epoch), ..p.state },
                        ..p
                    }));
                    self.publish();
                }
                Ok(MessageAction::Nothing)
            },
        }
    }

    /// Takes the manager map of an epoch.
    pub fn take_mgrmap(&mut self, epoch: u32)
        requires
            old(self).wf(),
        ensures
            final(self).wf(),
            final(self)@ == mgrmap_taken(old(self)@, epoch),
    {
        if is_newer(self.state.mgrmap, epoch) {
            self.state.mgrmap = Some(epoch);
            assert(self@ =~= (OwnerView {
                state: StateView { mgrmap: Some(epoch), ..old(self)@.state },
                ..old(self)@
            }));
            self.publish();
        }
    }
}

// ---------------------------------------------------------------------------
// Maps of the storage daemons
// ---------------------------------------------------------------------------

/// What is to be done next with a batch of maps: apply the incremental map of an epoch to the
/// current map, give up for want of a map in between, or commit the current map.
#[derive(Clone, Copy, Debug, PartialEq, Eq, Structural)]
pub enum UpdateStep {
    Apply { epoch: u32 },
    Gap,
    Commit,
}

/// A batch that is being taken: the epoch of the current map, the last full map of the batch, the
/// incremental maps, of which those before `next` are done, and the epochs that the current map
/// must reach.
#[derive(Debug)]
pub struct MapUpdate {
    pub current: Option<u32>,
    pub full: Option<u32>,
    pub incrementals: Vec<u32>,
    pub next: usize,
    pub trim_lower_bound: u32,
    pub newest_map: u32,
}

#[verifier::ext_equal]
pub struct UpdateView {
    pub current: Option<u32>,
    pub full: Option<u32>,
    pub incrementals: Seq<u32>,
    pub next: int,
    pub trim_lower_bound: u32,
    pub newest_map: u32,
}

impl View for MapUpdate {
    type V = UpdateView;

    open spec fn view(&self) -> UpdateView {
        UpdateView {
            current: self.current,
            full: self.full,
            incrementals: self.incrementals@,
            next: self.next as int,
            trim_lower_bound: self.trim_lower_bound,
            newest_map: self.newest_map,
        }
    }
}

/// The newest of the current map and full maps.
pub open spec fn newest(current: Option<u32>, fulls: Seq<u32>) -> Option<u32>
    decreases fulls.len(),
{
    if fulls.len() == 0 {
        current
    } else {
        let rest = newest(current, fulls.drop_last());
        if newer(rest, fulls.last()) {
            Some(fulls.last())
        } else {
            rest
        }
    }
}

pub open spec fn epochs(maps: Seq<MapIdentity>) -> Seq<u32> {
    Seq::new(maps.len(), |i: int| maps[i].expected_epoch)
}

/// Whether the current map is older than a batch says that there are.
pub open spec fn outdated(u: UpdateView) -> bool {
    let epoch = match u.current {
        Some(epoch) => epoch,
        None => 0,
    };
    (u.newest_map != 0 && epoch < u.newest_map) || (u.trim_lower_bound != 0 && epoch
        < u.trim_lower_bound)
}

/// The next step of a batch. Incremental maps that are not newer than the current map are passed
/// over. One that is newer must be that of the next epoch.
pub open spec fn update_step(u: UpdateView) -> (UpdateView, UpdateStep)
    decreases u.incrementals.len() - u.next,
{
    if 0 <= u.next < u.incrementals.len() {
        let epoch = u.incrementals[u.next];
        match u.current {
            None => (u, UpdateStep::Gap),
            Some(at) => if epoch <= at {
                update_step(UpdateView { next: u.next + 1, ..u })
            } else if epoch == at + 1 {
                (u, UpdateStep::Apply { epoch })
            } else {
                (u, UpdateStep::Gap)
            },
        }
    } else if outdated(u) {
        (u, UpdateStep::Gap)
    } else {
        (u, UpdateStep::Commit)
    }
}

impl MapUpdate {
    /// The next step of the batch.
    pub fn step(&mut self) -> (r: UpdateStep)
        ensures
            (final(self)@, r) == update_step(old(self)@),
            r is Apply ==> final(self).next < final(self).incrementals@.len(),
    {
        while self.next < self.incrementals.len()
            invariant
                update_step(self@) == update_step(old(self)@),
            decreases self.incrementals@.len() - self.next,
        {
            let epoch: u32 = self.incrementals[self.next];
            match self.current {
                None => {
                    return UpdateStep::Gap;
                },
                Some(at) => {
                    if epoch > at {
                        if epoch - at == 1 {
                            return UpdateStep::Apply { epoch };
                        }
                        return UpdateStep::Gap;
                    }
                },
            }
            let ghost before = self@;
            self.next = self.next + 1;
            assert(self@ =~= (UpdateView { next: before.next + 1, ..before }));
        }
        let epoch: u32 = match self.current {
            Some(epoch) => epoch,
            None => 0,
        };
        if (self.newest_map != 0 && epoch < self.newest_map) || (self.trim_lower_bound != 0 && epoch
            < self.trim_lower_bound) {
            return UpdateStep::Gap;
        }
        UpdateStep::Commit
    }

    /// Takes the map that came of an incremental one.
    pub fn applied(&mut self, epoch: u32)
        requires
            old(self).next < old(self).incrementals@.len(),
        ensures
            final(self)@ == (UpdateView {
                current: Some(epoch),
                next: old(self)@.next + 1,
                ..old(self)@
            }),
    {
        self.current = Some(epoch);
        if self.next < self.incrementals.len() {
            self.next = self.next + 1;
        }
    }
}

/// What is wrong with the maps of a batch, incremental maps first.
pub open spec fn maps_fault(
    fsid: Seq<u8>,
    incrementals: Seq<MapIdentity>,
    full_maps: Seq<MapIdentity>,
) -> Option<MessageError> {
    match batch_fault(fsid, incrementals) {
        Some(error) => Some(error),
        None => batch_fault(fsid, full_maps),
    }
}

/// A batch as an owner begins to take it.
pub open spec fn update_of(
    o: OwnerView,
    incrementals: Seq<u32>,
    full_maps: Seq<u32>,
    trim_lower_bound: u32,
    newest_map: u32,
) -> UpdateView {
    UpdateView {
        current: newest(o.state.osdmap, full_maps),
        full: if full_maps.len() == 0 {
            None
        } else {
            Some(full_maps.last())
        },
        incrementals,
        next: 0,
        trim_lower_bound,
        newest_map,
    }
}

/// Whether a batch whose last full map is of this epoch ends a refresh.
pub open spec fn refreshed(o: OwnerView, full: Option<u32>) -> bool {
    o.refresh_epoch matches Some(required) && full matches Some(epoch) && epoch >= required
}

/// The owner and what to do after a batch was taken.
pub open spec fn committing(o: OwnerView, u: UpdateView) -> (OwnerView, MessageAction) {
    let taken = match u.current {
        Some(epoch) => if newer(o.state.osdmap, epoch) {
            publishing(OwnerView { state: StateView { osdmap: Some(epoch), ..o.state }, ..o })
        } else {
            o
        },
        None => o,
    };
    if refreshed(o, u.full) {
        (OwnerView { refresh_epoch: None, ..taken }, MessageAction::Resubscribe)
    } else {
        (taken, MessageAction::Nothing)
    }
}

fn epochs_of(maps: &Vec<MapIdentity>) -> (r: Vec<u32>)
    ensures
        r@ == epochs(maps@),
{
    let mut r: Vec<u32> = Vec::new();
    let mut i: usize = 0;
    while i < maps.len()
        invariant
            i <= maps@.len(),
            r@ =~= epochs(maps@).take(i as int),
        decreases maps@.len() - i,
    {
        r.push(maps[i].expected_epoch);
        i = i + 1;
    }
    assert(r@ =~= epochs(maps@));
    r
}

fn newest_of(current: Option<u32>, fulls: &Vec<u32>) -> (r: Option<u32>)
    ensures
        r == newest(current, fulls@),
{
    let mut r: Option<u32> = current;
    let mut i: usize = 0;
    while i < fulls.len()
        invariant
            i <= fulls@.len(),
            r == newest(current, fulls@.take(i as int)),
        decreases fulls@.len() - i,
    {
        assert(fulls@.take(i + 1).drop_last() =~= fulls@.take(i as int));
        if is_newer(r, fulls[i]) {
            r = Some(fulls[i]);
        }
        i = i + 1;
    }
    assert(fulls@.take(i as int) =~= fulls@);
    r
}

impl Owner {
    /// Begins to take the maps of a batch. Its current map is the one at hand or a full map that is
    /// newer.
    pub fn begin_osdmaps(
        &mut self,
        fsid: Fsid,
        incrementals: &Vec<MapIdentity>,
        full_maps: &Vec<MapIdentity>,
        trim_lower_bound: u32,
        newest_map: u32,
    ) -> (r: Result<MapUpdate, MonitorError>)
        requires
            old(self).wf(),
        ensures
            final(self).wf(),
            match r {
                Ok(update) => maps_fault(fsid@, incrementals@, full_maps@) is None && !foreign(
                    old(self)@,
                    fsid@,
                ) && final(self)@ == pinning(old(self)@, fsid@) && update@ == update_of(
                    old(self)@,
                    epochs(incrementals@),
                    epochs(full_maps@),
                    trim_lower_bound,
                    newest_map,
                ),
                Err(error) => *final(self) == *old(self) && match maps_fault(
                    fsid@,
                    incrementals@,
                    full_maps@,
                ) {
                    Some(fault) => error == MonitorError::Message(fault),
                    None => foreign(old(self)@, fsid@) && error == MonitorError::ForeignCluster,
                },
            },
    {
        match validate_batch_maps(fsid, incrementals) {
            Ok(()) => {},
            Err(error) => {
                return Err(MonitorError::Message(error));
            },
        }
        match validate_batch_maps(fsid, full_maps) {
            Ok(()) => {},
            Err(error) => {
                return Err(MonitorError::Message(error));
            },
        }
        match self.pin_fsid(fsid) {
            Ok(()) => {},
            Err(error) => {
                return Err(error);
            },
        }
        let fulls = epochs_of(full_maps);
        let full: Option<u32> = if fulls.len() == 0 {
            None
        } else {
            Some(fulls[fulls.len() - 1])
        };
        Ok(
            MapUpdate {
                current: newest_of(self.state.osdmap, &fulls),
                full,
                incrementals: epochs_of(incrementals),
                next: 0,
                trim_lower_bound,
                newest_map,
            },
        )
    }

    /// Takes the map that a batch came to.
    pub fn commit_osdmap(&mut self, update: &MapUpdate) -> (r: MessageAction)
        requires
            old(self).wf(),
        ensures
            final(self).wf(),
            (final(self)@, r) == committing(old(self)@, update@),
    {
        if let Some(epoch) = update.current {
            if is_newer(self.state.osdmap, epoch) {
                self.state.osdmap = Some(epoch);
                assert(self@ =~= (OwnerView {
                    state: StateView { osdmap: Some(epoch), ..old(self)@.state },
                    ..old(self)@
                }));
                self.publish();
            }
        }
        if let Some(required) = self.refresh_epoch {
            if let Some(epoch) = update.full {
                if epoch >= required {
                    self.refresh_epoch = None;
                    assert(self@ =~= committing(old(self)@, update@).0);
                    return MessageAction::Resubscribe;
                }
            }
        }
        MessageAction::Nothing
    }
}

// ---------------------------------------------------------------------------
// Sessions
// ---------------------------------------------------------------------------

/// How a session with a monitor ends.
#[derive(Clone, Copy, Debug, PartialEq, Eq, Structural)]
pub enum SessionOutcome {
    Failover,
    ForeignCluster,
    Stop,
}

/// What happens to a session: the client is stopped, a message was handled, no more messages come,
/// the session failed, the time to subscribe again has come, or a caller wants a full map that is
/// not older than an epoch.
#[derive(Debug)]
pub enum SessionEvent {
    Stop,
    Handled(Result<MessageAction, MonitorError>),
    Ended,
    Failure(SessionError),
    SubscribeTimer,
    Refresh(Option<u32>),
}

/// What to do: report an error, subscribe to all maps or once to a full map of the storage daemons,
/// restart the subscription timer, close the session, and leave it.
#[derive(Clone, Copy, Debug, PartialEq, Eq)]
pub struct Reaction {
    pub report: Option<MonitorError>,
    pub subscribe: Option<SubscriptionKind>,
    pub restart_timer: bool,
    pub close: bool,
    pub leave: Option<SessionOutcome>,
}

#[derive(Clone, Copy, Debug, PartialEq, Eq, Structural)]
pub enum SubscriptionKind {
    AllMaps,
    FullOsdMap,
}

/// Nothing to do.
pub open spec fn idle() -> Reaction {
    Reaction { report: None, subscribe: None, restart_timer: false, close: false, leave: None }
}

fn no_reaction() -> (r: Reaction)
    ensures
        r == idle(),
{
    Reaction { report: None, subscribe: None, restart_timer: false, close: false, leave: None }
}

/// The epoch that a full map must have after a gap.
pub open spec fn epoch_after_gap(o: OwnerView) -> u32 {
    match o.state.osdmap {
        None => 1,
        Some(epoch) => if epoch == u32::MAX {
            epoch
        } else {
            (epoch + 1) as u32
        },
    }
}

/// The owner and what to do after an event of a session.
pub open spec fn reacting(o: OwnerView, event: SessionEvent) -> (OwnerView, Reaction) {
    match event {
        SessionEvent::Stop => (
            o,
            Reaction { close: true, leave: Some(SessionOutcome::Stop), ..idle() },
        ),
        SessionEvent::Handled(Ok(MessageAction::Nothing)) => (o, idle()),
        SessionEvent::Handled(Ok(MessageAction::Resubscribe)) => (
            o,
            Reaction { subscribe: Some(SubscriptionKind::AllMaps), ..idle() },
        ),
        SessionEvent::Handled(Err(MonitorError::MapGap)) => if o.refresh_epoch is Some {
            (o, Reaction { report: Some(MonitorError::MapGap), ..idle() })
        } else {
            (
                OwnerView { refresh_epoch: Some(epoch_after_gap(o)), ..o },
                Reaction {
                    report: Some(MonitorError::MapGap),
                    subscribe: Some(SubscriptionKind::FullOsdMap),
                    ..idle()
                },
            )
        },
        SessionEvent::Handled(Err(error)) => (
            o,
            Reaction {
                report: Some(error),
                close: true,
                leave: Some(
                    if error == MonitorError::ForeignCluster {
                        SessionOutcome::ForeignCluster
                    } else {
                        SessionOutcome::Failover
                    },
                ),
                ..idle()
            },
        ),
        SessionEvent::Ended => (
            o,
            Reaction { leave: Some(SessionOutcome::Failover), ..idle() },
        ),
        SessionEvent::Failure(error) => (
            o,
            Reaction {
                report: Some(MonitorError::Session(error)),
                leave: Some(SessionOutcome::Failover),
                ..idle()
            },
        ),
        SessionEvent::SubscribeTimer => (
            o,
            Reaction {
                subscribe: Some(SubscriptionKind::AllMaps),
                restart_timer: true,
                ..idle()
            },
        ),
        SessionEvent::Refresh(None) => (o, idle()),
        SessionEvent::Refresh(Some(epoch)) => (
            OwnerView {
                refresh_epoch: Some(
                    match o.refresh_epoch {
                        Some(current) => if current > epoch {
                            current
                        } else {
                            epoch
                        },
                        None => epoch,
                    },
                ),
                ..o
            },
            Reaction { subscribe: Some(SubscriptionKind::FullOsdMap), ..idle() },
        ),
    }
}

/// The epoch to be told from on.
pub open spec fn start_after(epoch: Option<u32>) -> u64 {
    match epoch {
        Some(epoch) => (epoch + 1) as u64,
        None => 0,
    }
}

fn next_start(epoch: Option<u32>) -> (r: u64)
    ensures
        r == start_after(epoch),
{
    match epoch {
        Some(epoch) => epoch as u64 + 1,
        None => 0,
    }
}

/// What to subscribe to: to every kind of map from the epoch after the one at hand, or once to the
/// newest full map of the storage daemons.
pub open spec fn subscriptions(s: StateView, kind: SubscriptionKind) -> Seq<
    (Seq<char>, Subscription),
> {
    match kind {
        SubscriptionKind::FullOsdMap => seq![
            ("osdmap"@, Subscription { start: 0, flags: SUBSCRIBE_ONCE }),
        ],
        SubscriptionKind::AllMaps => seq![
            ("mgrmap"@, Subscription { start: start_after(s.mgrmap), flags: 0 }),
            ("monmap"@, Subscription { start: start_after(s.monmap), flags: 0 }),
            ("osdmap"@, Subscription { start: start_after(s.osdmap), flags: 0 }),
        ],
    }
}

impl Owner {
    /// Begins a session in which this client has an id.
    pub fn open_session(&mut self, global_id: u64)
        requires
            old(self).wf(),
        ensures
            final(self).wf(),
            final(self)@ == publishing(
                OwnerView {
                    state: StateView { global_id: Some(global_id), ..old(self)@.state },
                    ..old(self)@
                },
            ),
    {
        self.state.global_id = Some(global_id);
        assert(self@ =~= (OwnerView {
            state: StateView { global_id: Some(global_id), ..old(self)@.state },
            ..old(self)@
        }));
        self.publish();
    }

    /// What to do after the first subscription of a session was sent or was not.
    pub fn first_subscription(&self, outcome: Result<(), MonitorError>) -> (r: Reaction)
        ensures
            r == match outcome {
                Err(error) => Reaction {
                    report: Some(error),
                    close: true,
                    leave: Some(SessionOutcome::Failover),
                    ..idle()
                },
                Ok(()) => if self@.refresh_epoch is Some {
                    Reaction { subscribe: Some(SubscriptionKind::FullOsdMap), ..idle() }
                } else {
                    idle()
                },
            },
    {
        match outcome {
            Err(error) => Reaction {
                report: Some(error),
                close: true,
                leave: Some(SessionOutcome::Failover),
                ..no_reaction()
            },
            Ok(()) => {
                if self.refresh_epoch.is_some() {
                    Reaction { subscribe: Some(SubscriptionKind::FullOsdMap), ..no_reaction() }
                } else {
                    no_reaction()
                }
            },
        }
    }

    fn react_to_gap(&mut self) -> (r: Reaction)
        requires
            old(self).wf(),
        ensures
            final(self).wf(),
            (final(self)@, r) == reacting(
                old(self)@,
                SessionEvent::Handled(Err(MonitorError::MapGap)),
            ),
    {
        if self.refresh_epoch.is_some() {
            return Reaction { report: Some(MonitorError::MapGap), ..no_reaction() };
        }
        self.refresh_epoch = Some(
            match self.state.osdmap {
                None => 1,
                Some(epoch) => epoch.saturating_add(1),
            },
        );
        assert(self@ =~= (OwnerView {
            refresh_epoch: Some(epoch_after_gap(old(self)@)),
            ..old(self)@
        }));
        Reaction {
            report: Some(MonitorError::MapGap),
            subscribe: Some(SubscriptionKind::FullOsdMap),
            ..no_reaction()
        }
    }

    fn react_to_refresh(&mut self, epoch: u32) -> (r: Reaction)
        requires
            old(self).wf(),
        ensures
            final(self).wf(),
            (final(self)@, r) == reacting(old(self)@, SessionEvent::Refresh(Some(epoch))),
    {
        self.refresh_epoch = Some(
            match self.refresh_epoch {
                Some(current) => if current > epoch {
                    current
                } else {
                    epoch
                },
                None => epoch,
            },
        );
        assert(self@ =~= reacting(old(self)@, SessionEvent::Refresh(Some(epoch))).0);
        Reaction { subscribe: Some(SubscriptionKind::FullOsdMap), ..no_reaction() }
    }

    /// What to do after an event of a session.
    pub fn react(&mut self, event: SessionEvent) -> (r: Reaction)
        requires
            old(self).wf(),
        ensures
            final(self).wf(),
            (final(self)@, r) == reacting(old(self)@, event),
    {
        match event {
            SessionEvent::Stop => Reaction {
                close: true,
                leave: Some(SessionOutcome::Stop),
                ..no_reaction()
            },
            SessionEvent::Handled(Ok(MessageAction::Nothing)) => no_reaction(),
            SessionEvent::Handled(Ok(MessageAction::Resubscribe)) => Reaction {
                subscribe: Some(SubscriptionKind::AllMaps),
                ..no_reaction()
            },
            SessionEvent::Handled(Err(MonitorError::MapGap)) => self.react_to_gap(),
            SessionEvent::Handled(Err(MonitorError::ForeignCluster)) => Reaction {
                report: Some(MonitorError::ForeignCluster),
                close: true,
                leave: Some(SessionOutcome::ForeignCluster),
                ..no_reaction()
            },
            SessionEvent::Handled(Err(error)) => Reaction {
                report: Some(error),
                close: true,
                leave: Some(SessionOutcome::Failover),
                ..no_reaction()
            },
            SessionEvent::Ended => Reaction {
                leave: Some(SessionOutcome::Failover),
                ..no_reaction()
            },
            SessionEvent::Failure(error) => Reaction {
                report: Some(MonitorError::Session(error)),
                leave: Some(SessionOutcome::Failover),
                ..no_reaction()
            },
            SessionEvent::SubscribeTimer => Reaction {
                subscribe: Some(SubscriptionKind::AllMaps),
                restart_timer: true,
                ..no_reaction()
            },
            SessionEvent::Refresh(None) => no_reaction(),
            SessionEvent::Refresh(Some(epoch)) => self.react_to_refresh(epoch),
        }
    }

    /// The message that subscribes.
    pub fn subscribe(&self, kind: SubscriptionKind) -> (r: Result<Message, MonitorError>)
        ensures
            match r {
                Ok(message) => subscribe_encoding(
                    subscriptions(self@.state, kind),
                    self@.config.hostname,
                    self@.config.message_limits.max_bytes,
                ) == Ok::<MessageView, MessageError>(message@),
                Err(error) => subscribe_encoding(
                    subscriptions(self@.state, kind),
                    self@.config.hostname,
                    self@.config.message_limits.max_bytes,
                ) matches Err(e) && error == MonitorError::Message(e),
            },
    {
        let mut list = Subscriptions::new();
        match kind {
            SubscriptionKind::FullOsdMap => {
                list.entries.push(
                    ("osdmap".to_owned(), Subscription { start: 0, flags: SUBSCRIBE_ONCE }),
                );
            },
            SubscriptionKind::AllMaps => {
                let mgrmap: u64 = next_start(self.state.mgrmap);
                let monmap: u64 = next_start(self.state.monmap);
                let osdmap: u64 = next_start(self.state.osdmap);
                list.entries.push(("mgrmap".to_owned(), Subscription { start: mgrmap, flags: 0 }));
                list.entries.push(("monmap".to_owned(), Subscription { start: monmap, flags: 0 }));
                list.entries.push(("osdmap".to_owned(), Subscription { start: osdmap, flags: 0 }));
            },
        }
        assert(list@ =~= subscriptions(self@.state, kind));
        match encode_subscribe(
            &list,
            self.config.hostname.as_str(),
            self.config.message_limits.max_bytes,
        ) {
            Ok(message) => Ok(message),
            Err(error) => Err(MonitorError::Message(error)),
        }
    }
}

// ---------------------------------------------------------------------------
// Seeds
// ---------------------------------------------------------------------------

/// The addresses of seeds.
pub open spec fn addresses(seeds: Seq<EndpointView>) -> Seq<SocketAddress> {
    Seq::new(seeds.len(), |i: int| seeds[i].address)
}

/// The seeds of foreign clusters with one more.
pub open spec fn with_foreign(o: OwnerView, address: SocketAddress) -> OwnerView {
    OwnerView {
        foreign_seeds: if o.foreign_seeds.contains(address) {
            o.foreign_seeds
        } else {
            o.foreign_seeds.push(address)
        },
        ..o
    }
}

/// Whether as many different addresses are foreign as there are among the seeds.
pub open spec fn all_foreign(o: OwnerView) -> bool {
    o.foreign_seeds.len() == addresses(o.config.seeds).to_set().len()
}

/// The owner after a session, and how the client ends, if it does.
pub open spec fn leaving(o: OwnerView, address: SocketAddress, outcome: SessionOutcome) -> (
    OwnerView,
    Option<MonitorError>,
) {
    match outcome {
        SessionOutcome::Stop => (o, Some(MonitorError::Closed)),
        SessionOutcome::Failover => (o, None),
        SessionOutcome::ForeignCluster => {
            let after = with_foreign(o, address);
            if all_foreign(after) {
                (after, Some(MonitorError::ForeignCluster))
            } else {
                (after, None)
            }
        },
    }
}

fn contains_address(list: &Vec<SocketAddress>, address: SocketAddress) -> (r: bool)
    ensures
        r == list@.contains(address),
{
    let mut i: usize = 0;
    while i < list.len()
        invariant
            i <= list@.len(),
            forall|j: int| 0 <= j < i ==> list@[j] != address,
        decreases list@.len() - i,
    {
        if list[i] == address {
            assert(list@[i as int] == address);
            return true;
        }
        i = i + 1;
    }
    false
}

fn count_addresses(seeds: &Vec<Endpoint>) -> (r: usize)
    ensures
        r == addresses(endpoints_view(seeds@)).to_set().len(),
{
    let ghost all = addresses(endpoints_view(seeds@));
    let mut distinct: Vec<SocketAddress> = Vec::new();
    let mut i: usize = 0;
    assert(all.take(0).to_set() =~= distinct@.to_set());
    while i < seeds.len()
        invariant
            i <= seeds@.len(),
            all == addresses(endpoints_view(seeds@)),
            distinct@.no_duplicates(),
            distinct@.to_set() == all.take(i as int).to_set(),
        decreases seeds@.len() - i,
    {
        let address = seeds[i].address;
        let ghost before = distinct@;
        assert(all[i as int] == address);
        assert(all.take(i + 1) =~= all.take(i as int).push(address));
        if !contains_address(&distinct, address) {
            distinct.push(address);
            assert(distinct@.to_set() =~= before.to_set().insert(address)) by {
                lemma_push_set(before, address);
            }
        } else {
            assert(before.to_set().insert(address) =~= before.to_set());
        }
        proof {
            lemma_push_set(all.take(i as int), address);
        }
        i = i + 1;
    }
    proof {
        assert(all.take(i as int) =~= all);
        distinct@.unique_seq_to_set();
    }
    distinct.len()
}

proof fn lemma_push_set(s: Seq<SocketAddress>, a: SocketAddress)
    ensures
        s.push(a).to_set() == s.to_set().insert(a),
{
    assert forall|x: SocketAddress| s.push(a).to_set().contains(x) <==> s.to_set().insert(
        a,
    ).contains(x) by {
        if s.contains(x) {
            let i = choose|i: int| 0 <= i < s.len() && s[i] == x;
            assert(s.push(a)[i] == x);
        }
        if x == a {
            assert(s.push(a)[s.len() as int] == a);
        }
        if s.push(a).contains(x) && x != a {
            let i = choose|i: int| 0 <= i < s.push(a).len() && s.push(a)[i] == x;
            assert(s[i] == x);
        }
    }
    assert(s.push(a).to_set() =~= s.to_set().insert(a));
}

impl Owner {
    /// The seed to turn to, unless as many attempts as allowed were made or the client is to stop.
    pub fn next_attempt(&mut self, attempts: usize, stopped: bool) -> (r: Result<
        usize,
        MonitorError,
    >)
        requires
            old(self).wf(),
        ensures
            final(self).wf(),
            match r {
                Ok(seed) => attempts < old(self)@.config.max_seed_attempts && !stopped && seed == old(
                    self,
                )@.next_seed && final(self)@ == (OwnerView {
                    next_seed: (old(self)@.next_seed + 1) % (old(self)@.config.seeds.len() as int),
                    ..old(self)@
                }),
                Err(error) => *final(self) == *old(self) && if attempts >= old(
                    self,
                )@.config.max_seed_attempts {
                    error == MonitorError::AttemptsExhausted
                } else {
                    stopped && error == MonitorError::Closed
                },
            },
    {
        if attempts >= self.config.max_seed_attempts {
            return Err(MonitorError::AttemptsExhausted);
        }
        if stopped {
            return Err(MonitorError::Closed);
        }
        let seed: usize = self.next_seed;
        if self.config.seeds.len() - seed > 1 {
            self.next_seed = seed + 1;
        } else {
            self.next_seed = 0;
        }
        proof {
            let n = self.config.seeds@.len() as int;
            if seed + 1 < n {
                vstd::arithmetic::div_mod::lemma_small_mod((seed + 1) as nat, n as nat);
            } else {
                vstd::arithmetic::div_mod::lemma_mod_self_0(n);
            }
            assert(self@.next_seed == (seed + 1) % n);
        }
        assert(self@ =~= (OwnerView { next_seed: self@.next_seed, ..old(self)@ }));
        Ok(seed)
    }

    /// How the client ends after a session with a seed, if it does.
    pub fn leave_session(&mut self, address: SocketAddress, outcome: SessionOutcome) -> (r: Option<
        MonitorError,
    >)
        requires
            old(self).wf(),
        ensures
            final(self).wf(),
            (final(self)@, r) == leaving(old(self)@, address, outcome),
    {
        match outcome {
            SessionOutcome::Stop => Some(MonitorError::Closed),
            SessionOutcome::Failover => None,
            SessionOutcome::ForeignCluster => {
                if !contains_address(&self.foreign_seeds, address) {
                    self.foreign_seeds.push(address);
                }
                assert(self@ =~= with_foreign(old(self)@, address));
                if self.foreign_seeds.len() == count_addresses(&self.config.seeds) {
                    Some(MonitorError::ForeignCluster)
                } else {
                    None
                }
            },
        }
    }
}

// ---------------------------------------------------------------------------
// What holds of every client
// ---------------------------------------------------------------------------

/// Whether a map is still there and not of an older epoch.
pub open spec fn not_older(before: Option<u32>, after: Option<u32>) -> bool {
    before matches Some(a) ==> (after matches Some(b) && a <= b)
}

/// Whether one owner can come after another: the configuration stays, an identity that is known
/// stays, no map goes back, and generations do not descend.
pub open spec fn follows(before: OwnerView, after: OwnerView) -> bool {
    &&& after.config == before.config
    &&& before.pinned_fsid is Some ==> after.pinned_fsid == before.pinned_fsid
    &&& not_older(before.state.monmap, after.state.monmap)
    &&& not_older(before.state.osdmap, after.state.osdmap)
    &&& not_older(before.state.mgrmap, after.state.mgrmap)
    &&& before.state.generation <= after.state.generation
}

/// What is true of every owner: the history is within its limit, what was published is not newer
/// than the state, and the identity that is published is the one that is known.
pub open spec fn sound(o: OwnerView) -> bool {
    &&& o.history.len() <= o.config.history_limit
    &&& o.published.generation <= o.state.generation
    &&& o.state.connected_fsid is Some ==> o.state.connected_fsid == o.pinned_fsid
}

/// A client starts without a history.
pub proof fn law_client_starts_sound(config: ConfigView)
    ensures
        sound(started(config)),
{
}

proof fn lemma_publishing(o: OwnerView)
    requires
        sound(o),
    ensures
        sound(publishing(o)),
        follows(o, publishing(o)),
        publishing(o).published == publishing(o).state,
{
}

/// Whatever arrives and whatever happens, maps do not go back, the identity of the cluster does not
/// change once it is known, and the history stays within its limit.
pub proof fn law_state_only_advances(
    o: OwnerView,
    m: MessageView,
    fsid: Seq<u8>,
    epoch: u32,
    update: UpdateView,
    event: SessionEvent,
    address: SocketAddress,
    outcome: SessionOutcome,
)
    requires
        sound(o),
    ensures
        sound(handling(o, m).0) && follows(o, handling(o, m).0),
        sound(monmap_taken(o, fsid, epoch).0) && follows(o, monmap_taken(o, fsid, epoch).0),
        sound(mgrmap_taken(o, epoch)) && follows(o, mgrmap_taken(o, epoch)),
        !foreign(o, fsid) ==> sound(pinning(o, fsid)) && follows(o, pinning(o, fsid)),
        sound(committing(o, update).0) && follows(o, committing(o, update).0),
        sound(reacting(o, event).0) && follows(o, reacting(o, event).0),
        sound(leaving(o, address, outcome).0) && follows(o, leaving(o, address, outcome).0),
{
    if let Ok((_, fsid)) = ack_decoding(m, o.config.message_limits.max_bytes) {
        if !foreign(o, fsid) {
            lemma_publishing(pinning(o, fsid));
        }
    }
    if !foreign(o, fsid) {
        let p = pinning(o, fsid);
        lemma_publishing(OwnerView { state: StateView { monmap: Some(epoch), ..p.state }, ..p });
    }
    lemma_publishing(OwnerView { state: StateView { mgrmap: Some(epoch), ..o.state }, ..o });
    if let Some(epoch) = update.current {
        lemma_publishing(OwnerView { state: StateView { osdmap: Some(epoch), ..o.state }, ..o });
    }
}

/// A message that is refused, for its form or its cluster, changes nothing.
pub proof fn law_refused_message_changes_nothing(o: OwnerView, m: MessageView)
    requires
        handling(o, m).1 is Err,
    ensures
        handling(o, m).0 == o,
{
}

/// The step that a batch stops at is settled by its current map: an incremental map is applied only
/// to the map of the epoch before it, and the map that is committed has reached the epochs that the
/// batch names.
pub proof fn law_maps_are_applied_in_sequence(u: UpdateView)
    ensures
        update_step(u).1 matches UpdateStep::Apply { epoch } ==> (update_step(u).0.current matches Some(
            at,
        ) && epoch == at + 1),
        update_step(u).1 is Commit ==> !outdated(update_step(u).0),
        update_step(u).0.current == u.current,
        update_step(u).0 == (UpdateView { next: update_step(u).0.next, ..u }),
        u.next <= update_step(u).0.next,
    decreases u.incrementals.len() - u.next,
{
    if 0 <= u.next < u.incrementals.len() {
        if let Some(at) = u.current {
            if u.incrementals[u.next] <= at {
                law_maps_are_applied_in_sequence(UpdateView { next: u.next + 1, ..u });
            }
        }
    }
}

/// The current map of a batch is not older than the map at hand nor than any full map.
pub proof fn law_newest_map_is_the_base(current: Option<u32>, fulls: Seq<u32>, i: int)
    ensures
        not_older(current, newest(current, fulls)),
        0 <= i < fulls.len() ==> not_older(Some(fulls[i]), newest(current, fulls)),
        newest(current, fulls) == current || (newest(current, fulls) matches Some(epoch)
            && fulls.contains(epoch)),
    decreases fulls.len(),
{
    if fulls.len() > 0 {
        let rest = fulls.drop_last();
        law_newest_map_is_the_base(current, rest, i);
        assert(fulls[fulls.len() - 1] == fulls.last());
        if newest(current, rest) matches Some(epoch) && rest.contains(epoch) {
            let epoch = newest(current, rest)->0;
            let k = choose|k: int| 0 <= k < rest.len() && rest[k] == epoch;
            assert(fulls[k] == epoch);
        }
    }
}

/// After a gap a full map is asked for, and the first batch with a full map that is new enough ends
/// the refresh with a subscription to all maps.
pub proof fn law_gap_is_closed_by_a_full_map(o: OwnerView, u: UpdateView)
    requires
        o.refresh_epoch is None,
    ensures
        ({
            let (after, reaction) = reacting(
                o,
                SessionEvent::Handled(Err(MonitorError::MapGap)),
            );
            &&& reaction.subscribe == Some(SubscriptionKind::FullOsdMap)
            &&& reaction.leave is None
            &&& (u.full matches Some(epoch) && epoch >= epoch_after_gap(o)) ==> committing(
                after,
                u,
            ).1 is Resubscribe && committing(after, u).0.refresh_epoch is None
            &&& !(u.full matches Some(epoch) && epoch >= epoch_after_gap(o)) ==> committing(
                after,
                u,
            ).0.refresh_epoch == after.refresh_epoch
        }),
{
}

/// The seed of an attempt, counted from the seed to turn to next.
pub open spec fn seed_of_attempt(next_seed: int, count: int, attempt: int) -> int {
    (next_seed + attempt) % count
}

/// Attempts go round all seeds: every seed is turned to once in as many attempts as there are
/// seeds.
pub proof fn law_attempts_go_round(next_seed: int, count: int, seed: int)
    requires
        0 <= next_seed < count,
        0 <= seed < count,
    ensures
        exists|attempt: int|
            0 <= attempt < count && #[trigger] seed_of_attempt(next_seed, count, attempt) == seed,
        forall|attempt: int|
            seed_of_attempt(next_seed, count, attempt + 1) == (#[trigger] seed_of_attempt(
                next_seed,
                count,
                attempt,
            ) + 1) % count,
{
    let attempt = if seed >= next_seed {
        seed - next_seed
    } else {
        seed - next_seed + count
    };
    if seed >= next_seed {
        vstd::arithmetic::div_mod::lemma_small_mod(seed as nat, count as nat);
    } else {
        vstd::arithmetic::div_mod::lemma_mod_add_multiples_vanish(seed, count);
        vstd::arithmetic::div_mod::lemma_small_mod(seed as nat, count as nat);
        assert(next_seed + attempt == count + seed);
    }
    assert(seed_of_attempt(next_seed, count, attempt) == seed);
    assert forall|attempt: int|
        seed_of_attempt(next_seed, count, attempt + 1) == (#[trigger] seed_of_attempt(
            next_seed,
            count,
            attempt,
        ) + 1) % count by {
        vstd::arithmetic::div_mod::lemma_add_mod_noop(next_seed + attempt, 1, count);
        vstd::arithmetic::div_mod::lemma_add_mod_noop((next_seed + attempt) % count, 1, count);
        vstd::arithmetic::div_mod::lemma_mod_twice(next_seed + attempt, count);
        assert(next_seed + (attempt + 1) == (next_seed + attempt) + 1);
    }
}

/// The client gives up for foreign clusters only when every seed turned out to be of one, as long
/// as sessions are with seeds.
pub proof fn law_foreign_means_every_seed(
    o: OwnerView,
    address: SocketAddress,
    outcome: SessionOutcome,
)
    requires
        o.foreign_seeds.no_duplicates(),
        o.foreign_seeds.to_set().subset_of(addresses(o.config.seeds).to_set()),
        addresses(o.config.seeds).contains(address),
        leaving(o, address, outcome).1 == Some(MonitorError::ForeignCluster),
    ensures
        leaving(o, address, outcome).0.foreign_seeds.to_set() == addresses(
            o.config.seeds,
        ).to_set(),
{
    let after = with_foreign(o, address);
    let all = addresses(o.config.seeds).to_set();
    lemma_push_set(o.foreign_seeds, address);
    let found = after.foreign_seeds.to_set();
    assert(found.subset_of(all));
    after.foreign_seeds.unique_seq_to_set();
    vstd::set_lib::lemma_subset_equality(found, all);
}

// ---------------------------------------------------------------------------
// Views
// ---------------------------------------------------------------------------

/// What stands for a value of this type has its fields.
pub proof fn law_monitor_config_has_its_fields(x: MonitorConfig)
    ensures
        x@.seeds == (endpoints_view(x.seeds@)),
        x@.expected_fsid == (fsid_view(x.expected_fsid)),
        x@.hostname == x.hostname@,
        x@.map_limits == x.map_limits,
        x@.message_limits == x.message_limits,
        x@.max_seed_attempts == x.max_seed_attempts,
        x@.history_limit == x.history_limit,
        x@.operation_timeout == x.operation_timeout,
        x@.retry_delay == x.retry_delay,
        x@.subscribe_period == x.subscribe_period,
        x@.error_capacity == x.error_capacity,
{
}

/// What stands for a value of this type has its fields.
pub proof fn law_monitor_state_has_its_fields(x: MonitorState)
    ensures
        x@.generation == x.generation,
        x@.connected_fsid == (fsid_view(x.connected_fsid)),
        x@.global_id == x.global_id,
        x@.monmap == x.monmap,
        x@.osdmap == x.osdmap,
        x@.mgrmap == x.mgrmap,
{
}

/// What stands for a value of this type has its fields.
pub proof fn law_owner_has_its_fields(x: Owner)
    ensures
        x@.config == x.config@,
        x@.next_seed == (x.next_seed as int),
        x@.pinned_fsid == (fsid_view(x.pinned_fsid)),
        x@.state == x.state@,
        x@.published == x.published@,
        x@.history == (states_view(x.history@)),
        x@.refresh_epoch == x.refresh_epoch,
        x@.foreign_seeds == x.foreign_seeds@,
{
}

/// What stands for a value of this type is its case, with what it holds.
pub proof fn law_delivery_is_its_case(x: &Delivery)
    ensures
        x@ == (match x {
                Delivery::Handled => DeliveryView::Handled,
                Delivery::MonMap(bytes) => DeliveryView::MonMap(bytes@),
                Delivery::OsdMaps(batch) => DeliveryView::OsdMaps(batch@),
                Delivery::MgrMap(bytes) => DeliveryView::MgrMap(bytes@),
            }),
{
}

/// What stands for a value of this type has its fields.
pub proof fn law_map_update_has_its_fields(x: MapUpdate)
    ensures
        x@.current == x.current,
        x@.full == x.full,
        x@.incrementals == x.incrementals@,
        x@.next == (x.next as int),
        x@.trim_lower_bound == x.trim_lower_bound,
        x@.newest_map == x.newest_map,
{
}

/// What stands for a list has what stands for each of its items, in order.
pub proof fn law_states_view_keeps_order(s: Seq<MonitorState>, i: int)
    requires
        0 <= i < s.len(),
    ensures
        states_view(s).len() == s.len(),
        states_view(s)[i] == s[i]@,
{
}

} // verus!
